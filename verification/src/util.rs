//! Small helpers: merging maps, and reading the user's answer to a question.
use vstd::prelude::*;

use crate::pathmap::{entries_map, keys_distinct, PathMap};
use crate::text::{chars_of, replace_all, replace_str, string_of, trim_end, trim_end_char};

verus! {

/// `merged` holds every key of `a` and `b`: the value of `a` or `b` where only one has the
/// key, and a value `update` may give for the two values where both have it.
pub open spec fn is_merge<V, F: Fn(V, V) -> V>(
    a: Map<Seq<char>, V>,
    b: Map<Seq<char>, V>,
    merged: Map<Seq<char>, V>,
    update: F,
) -> bool {
    &&& merged.dom() == a.dom() + b.dom()
    &&& forall|k: Seq<char>|
        #[trigger] merged.dom().contains(k) ==> if a.dom().contains(k) && b.dom().contains(k) {
            call_ensures(update, (a[k], b[k]), merged[k])
        } else if a.dom().contains(k) {
            merged[k] == a[k]
        } else {
            merged[k] == b[k]
        }
}

/// Moves every entry of `map_b` into `map_a`: a key already in `map_a` gets the value
/// `update` makes of the two values, a new key keeps its value. `map_b` is left empty.
pub fn map_update<'a, V, F: Fn(V, V) -> V>(
    map_a: &'a mut PathMap<V>,
    map_b: &'a mut PathMap<V>,
    update: F,
) -> (res: &'a PathMap<V>)
    requires
        old(map_a).wf(),
        old(map_b).wf(),
        forall|x: V, y: V| call_requires(update, (x, y)),
    ensures
        final(map_a).wf(),
        final(map_b).wf(),
        final(map_b)@ == Map::<Seq<char>, V>::empty(),
        is_merge(old(map_a)@, old(map_b)@, final(map_a)@, update),
        *res == *final(map_a),
{
    let ghost a0 = map_a@;
    let entries = map_b.take_entries();
    let ghost all = entries@;
    assert(entries_map(all.take(0)) =~= Map::<Seq<char>, V>::empty());
    assert(a0.dom() + entries_map(all.take(0)).dom() =~= a0.dom());
    assert(is_merge(a0, entries_map(all.take(0)), map_a@, update));
    for e in it: entries
        invariant
            it.seq() == all,
            keys_distinct(all),
            map_a.wf(),
            forall|x: V, y: V| call_requires(update, (x, y)),
            is_merge(a0, entries_map(all.take(it.index() as int)), map_a@, update),
    {
        let ghost n = it.index() as int;
        let ghost done = entries_map(all.take(n));
        assert(all[n] == e);
        assert(all.take(n + 1).drop_last() =~= all.take(n));
        assert(!done.dom().contains(e.0@)) by {
            crate::pathmap::lemma_entries_map_dom(all.take(n), e.0@);
            if done.dom().contains(e.0@) {
                let j = choose|j: int| 0 <= j < all.take(n).len() && all.take(n)[j].0@ == e.0@;
                assert(all[j].0@ != all[n].0@);
            }
        }
        let ghost before = map_a@;
        let (key, value) = e;
        let ghost k = key@;
        match map_a.remove(key.as_str()) {
            Some(current) => {
                let merged = update(current, value);
                map_a.insert(key, merged);
            },
            None => {
                map_a.insert(key, value);
            },
        }
        proof {
            let now = entries_map(all.take(n + 1));
            assert(now == done.insert(k, e.1));
            assert(map_a@.dom() =~= a0.dom() + now.dom());
            assert forall|q: Seq<char>| #[trigger] map_a@.dom().contains(q) implies if a0.dom().contains(q)
                && now.dom().contains(q) {
                call_ensures(update, (a0[q], now[q]), map_a@[q])
            } else if a0.dom().contains(q) {
                map_a@[q] == a0[q]
            } else {
                map_a@[q] == now[q]
            } by {
                if q != k {
                    assert(before.dom().contains(q));
                }
            }
        }
    }
    proof {
        assert(all.take(all.len() as int) =~= all);
    }
    map_a
}

/// What std's `str::to_lowercase` gives for `s`.
pub uninterp spec fn lowercase(s: Seq<char>) -> Seq<char>;

/// Calls std's `str::to_lowercase`. The contract claims only that the result is the named
/// value `lowercase` of the text.
#[verifier::external_body]
fn to_lowercase(s: &str) -> (res: String)
    ensures
        res@ == lowercase(s@),
{
    s.to_lowercase()
}

/// Whether an answer (a line as read, with its newline) accepts: `y` or `yes` in any case,
/// or nothing at all when accepting is the default.
pub open spec fn accepts(line: Seq<char>, default: bool) -> bool {
    let answer = lowercase(trim_end(line, '\n'));
    (answer.len() == 0 && default) || answer == seq!['y'] || answer == seq!['y', 'e', 's']
}

/// Whether the answer `line` accepts, as `accepts` says.
pub fn confirmation_accepted(line: &str, default: bool) -> (res: bool)
    ensures
        res == accepts(line@, default),
{
    let trimmed = trim_end_char(&chars_of(line), '\n');
    let lower = to_lowercase(crate::text::string_of(trimmed.as_slice()).as_str());
    let answer = chars_of(lower.as_str());
    let y: Vec<char> = vec!['y'];
    let yes: Vec<char> = vec!['y', 'e', 's'];
    assert(y@ =~= seq!['y']);
    assert(yes@ =~= seq!['y', 'e', 's']);
    (answer.len() == 0 && default) || crate::text::chars_eq(&answer, &y) || crate::text::chars_eq(
        &answer,
        &yes,
    )
}

/// `path` with `~` replaced by the home directory.
pub open spec fn expand_home(path: Seq<char>, home: Seq<char>) -> Seq<char> {
    replace_all(path, seq!['~'], home)
}

/// Replaces `~` in `path` by `home`.
pub fn expand_homedir(path: &str, home: &str) -> (res: String)
    ensures
        res@ == expand_home(path@, home@),
{
    let tilde: Vec<char> = vec!['~'];
    assert(tilde@ =~= seq!['~']);
    let out = replace_str(&chars_of(path), &tilde, &chars_of(home));
    string_of(out.as_slice())
}

} // verus!
