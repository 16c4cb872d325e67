use vstd::prelude::*;
use vstd::string::{StrSliceExecFns, StringExecFns};

verus! {

/// Whether `pattern` stands in `text` at position `at`.
pub open spec fn occurs_at(text: Seq<char>, at: int, pattern: Seq<char>) -> bool {
    0 <= at && at + pattern.len() <= text.len() && text.subrange(at, at + pattern.len()) == pattern
}

/// Whether `pattern` stands somewhere in `text`.
pub open spec fn occurs_in(text: Seq<char>, pattern: Seq<char>) -> bool {
    exists|at: int| occurs_at(text, at, pattern)
}

/// `text` without the occurrences of `pattern`, taken from the left, each
/// after the end of the one before.
pub open spec fn without(text: Seq<char>, pattern: Seq<char>) -> Seq<char>
    decreases text.len(),
{
    if pattern.len() == 0 || text.len() < pattern.len() {
        text
    } else if occurs_at(text, 0, pattern) {
        without(text.subrange(pattern.len() as int, text.len() as int), pattern)
    } else {
        seq![text[0]] + without(text.subrange(1, text.len() as int), pattern)
    }
}

/// The characters of a text, in order.
pub fn chars_of(text: &str) -> (r: Vec<char>)
    ensures
        r@ == text@,
{
    let mut out: Vec<char> = Vec::new();
    for c in it: text.chars()
        invariant
            it.seq() == text@,
            out@ == it.seq().take(it.index() as int),
    {
        out.push(c);
        assert(out@ =~= it.seq().take(it.index() + 1));
    }
    assert(out@ =~= text@);
    out
}

/// Whether `pattern` stands in `text` at position `at`.
pub fn matches_at(text: &Vec<char>, at: usize, pattern: &Vec<char>) -> (r: bool)
    ensures
        r == occurs_at(text@, at as int, pattern@),
{
    if at > text.len() || pattern.len() > text.len() - at {
        return false;
    }
    let mut k: usize = 0;
    while k < pattern.len()
        invariant
            k <= pattern.len(),
            at + pattern.len() <= text.len(),
            forall|x: int| 0 <= x < k ==> text@[at + x] == pattern@[x],
        decreases pattern.len() - k,
    {
        if text[at + k] != pattern[k] {
            assert(text@.subrange(at as int, at + pattern.len())[k as int] != pattern@[k as int]);
            return false;
        }
        k += 1;
    }
    assert(text@.subrange(at as int, at + pattern.len()) =~= pattern@);
    true
}

/// Whether `pattern` stands somewhere in `text`.
pub fn contains(text: &str, pattern: &str) -> (r: bool)
    ensures
        r == occurs_in(text@, pattern@),
{
    let chars = chars_of(text);
    let sought = chars_of(pattern);
    let mut at: usize = 0;
    while at < chars.len()
        invariant
            at <= chars.len(),
            chars@ == text@,
            sought@ == pattern@,
            forall|x: int| 0 <= x < at ==> !occurs_at(text@, x, pattern@),
        decreases chars.len() - at,
    {
        if matches_at(&chars, at, &sought) {
            return true;
        }
        at += 1;
    }
    matches_at(&chars, at, &sought)
}

/// What `without` leaves of the text from a position on, by what stands at
/// that position.
proof fn without_step(text: Seq<char>, at: int, pattern: Seq<char>)
    requires
        0 <= at <= text.len(),
        pattern.len() > 0,
    ensures
        without(text.subrange(at, text.len() as int), pattern) == if occurs_at(text, at, pattern) {
            without(text.subrange(at + pattern.len(), text.len() as int), pattern)
        } else if at + pattern.len() <= text.len() {
            seq![text[at]] + without(text.subrange(at + 1, text.len() as int), pattern)
        } else {
            text.subrange(at, text.len() as int)
        },
{
    let rest = text.subrange(at, text.len() as int);
    let m = pattern.len() as int;
    if at + m <= text.len() {
        assert(rest.subrange(0, m) =~= text.subrange(at, at + m));
        assert(rest.subrange(m, rest.len() as int) =~= text.subrange(at + m, text.len() as int));
        assert(rest.subrange(1, rest.len() as int) =~= text.subrange(at + 1, text.len() as int));
    }
}

/// `text` without the occurrences of `pattern`.
pub fn remove_all(text: &str, pattern: &str) -> (r: String)
    ensures
        r@ == without(text@, pattern@),
{
    let chars = chars_of(text);
    let pattern = chars_of(pattern);
    if pattern.len() == 0 {
        return String::from_str(text);
    }
    let ghost whole = text@;
    let n = chars.len();
    let mut out = String::new();
    let mut kept: usize = 0;
    let mut at: usize = 0;
    assert(whole.subrange(0, n as int) =~= whole);
    assert(out@ + whole.subrange(0, 0) + without(whole, pattern@) =~= without(whole, pattern@));
    while at < n
        invariant
            kept <= at <= n,
            n == whole.len(),
            whole == text@,
            chars@ == whole,
            pattern@.len() > 0,
            without(whole, pattern@) == out@ + whole.subrange(kept as int, at as int) + without(
                whole.subrange(at as int, n as int),
                pattern@,
            ),
        decreases n - at,
    {
        proof {
            without_step(whole, at as int, pattern@);
        }
        if matches_at(&chars, at, &pattern) {
            out.append(text.substring_char(kept, at));
            at += pattern.len();
            kept = at;
            assert(whole.subrange(kept as int, at as int) =~= Seq::<char>::empty());
        } else {
            assert(whole.subrange(kept as int, at as int) + seq![whole[at as int]]
                =~= whole.subrange(kept as int, at + 1));
            at += 1;
        }
    }
    let ghost copied = out@;
    out.append(text.substring_char(kept, n));
    assert(whole.subrange(n as int, n as int).len() == 0);
    assert(out@ =~= copied + whole.subrange(kept as int, n as int) + Seq::<char>::empty());
    out
}

} // verus!
