//! Glob matching shared by lint suppression and discovery ignores.

use vstd::prelude::*;

verus! {

broadcast use vstd::string::group_string_axioms;

/// Whether the bytes `value` match `pattern`: `*` stands for any run of bytes,
/// `?` for exactly one, any other byte for itself.
pub open spec fn glob_of(pattern: Seq<u8>, value: Seq<u8>) -> bool
    decreases pattern.len() + value.len(),
{
    if pattern.len() == 0 {
        value.len() == 0
    } else if pattern[0] == 42u8 {
        glob_of(pattern.skip(1), value) || (value.len() > 0 && glob_of(pattern, value.skip(1)))
    } else {
        value.len() > 0 && (pattern[0] == 63u8 || pattern[0] == value[0]) && glob_of(
            pattern.skip(1),
            value.skip(1),
        )
    }
}

/// Whether `value[v..]` matches `pattern[p..]`.
fn glob_matches_bytes(pattern: &[u8], value: &[u8], p: usize, v: usize) -> (yes: bool)
    requires
        p <= pattern@.len(),
        v <= value@.len(),
    ensures
        yes == glob_of(pattern@.skip(p as int), value@.skip(v as int)),
    decreases pattern@.len() - p + value@.len() - v,
{
    let ghost ps = pattern@.skip(p as int);
    let ghost vs = value@.skip(v as int);
    if p == pattern.len() {
        return v == value.len();
    }
    assert(ps.skip(1) =~= pattern@.skip(p + 1));
    if v < value.len() {
        assert(vs.skip(1) =~= value@.skip(v + 1));
    }
    if pattern[p] == 42u8 {
        if glob_matches_bytes(pattern, value, p + 1, v) {
            return true;
        }
        v < value.len() && glob_matches_bytes(pattern, value, p, v + 1)
    } else {
        v < value.len() && (pattern[p] == 63u8 || pattern[p] == value[v]) && glob_matches_bytes(
            pattern,
            value,
            p + 1,
            v + 1,
        )
    }
}

/// Matches `value` against `pattern`, where `*` matches any run (including
/// none) and `?` exactly one byte. Matching is byte-wise and case-sensitive,
/// and `/` is a byte like any other.
pub fn glob_matches(pattern: &str, value: &str) -> (yes: bool)
    ensures
        yes == glob_of(vstd::utf8::encode_utf8(pattern@), vstd::utf8::encode_utf8(value@)),
{
    let p = pattern.as_bytes();
    let v = value.as_bytes();
    assert(p@.skip(0) =~= p@);
    assert(v@.skip(0) =~= v@);
    glob_matches_bytes(p, v, 0, 0)
}

/// A `*` stands for some run of bytes: the rest of the pattern matches what
/// is left behind that run.
pub proof fn law_star_matches_any_run(rest: Seq<u8>, value: Seq<u8>)
    ensures
        glob_of(seq![42u8] + rest, value) <==> exists|k: int|
            0 <= k <= value.len() && glob_of(rest, #[trigger] value.skip(k)),
    decreases value.len(),
{
    let pattern = seq![42u8] + rest;
    assert(pattern.skip(1) =~= rest);
    assert(value.skip(0) =~= value);
    if value.len() > 0 {
        law_star_matches_any_run(rest, value.skip(1));
        if glob_of(pattern, value.skip(1)) {
            let k = choose|k: int|
                0 <= k <= value.skip(1).len() && glob_of(rest, #[trigger] value.skip(1).skip(k));
            assert(value.skip(1).skip(k) =~= value.skip(k + 1));
        }
        if exists|k: int| 0 <= k <= value.len() && glob_of(rest, #[trigger] value.skip(k)) {
            let k = choose|k: int| 0 <= k <= value.len() && glob_of(rest, #[trigger] value.skip(k));
            if k > 0 {
                assert(value.skip(1).skip(k - 1) =~= value.skip(k));
            }
        }
    }
}

/// The pattern `*` alone matches every value.
pub proof fn law_star_matches_everything(value: Seq<u8>)
    ensures
        glob_of(seq![42u8], value),
{
    law_star_matches_any_run(Seq::empty(), value);
    assert(seq![42u8] + Seq::<u8>::empty() =~= seq![42u8]);
    assert(value.skip(value.len() as int) =~= Seq::<u8>::empty());
    assert(glob_of(Seq::empty(), value.skip(value.len() as int)));
}

/// A pattern without wildcards matches itself and nothing else.
pub proof fn law_plain_pattern_matches_itself_only(pattern: Seq<u8>, value: Seq<u8>)
    requires
        forall|i: int| 0 <= i < pattern.len() ==> pattern[i] != 42u8 && pattern[i] != 63u8,
    ensures
        glob_of(pattern, value) <==> pattern == value,
    decreases pattern.len(),
{
    if pattern.len() == 0 {
        assert(value.len() == 0 ==> pattern =~= value);
    } else if value.len() > 0 {
        law_plain_pattern_matches_itself_only(pattern.skip(1), value.skip(1));
        assert(pattern =~= seq![pattern[0]] + pattern.skip(1));
        assert(value =~= seq![value[0]] + value.skip(1));
    }
}

/// A question mark matches exactly one byte, whichever it is.
pub proof fn law_question_mark_matches_one(rest: Seq<u8>, value: Seq<u8>)
    ensures
        glob_of(seq![63u8] + rest, value) <==> value.len() > 0 && glob_of(rest, value.skip(1)),
{
    assert((seq![63u8] + rest).skip(1) =~= rest);
}

} // verus!
