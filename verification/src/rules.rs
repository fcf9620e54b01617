//! Rewrite rules and the rule-file loader.
//!
//! A rule replaces one straight-line occurrence of its left-hand category
//! sequence with its right-hand sequence. Rules are loaded once at startup
//! from a textual format, one rule per line; the loaded list is immutable
//! and its order defines both priority and the liveness-bit index of each
//! rule.

use vstd::prelude::*;

use crate::category::{spec_category_of_symbol, category_of_symbol, CategoryId};

verus! {

/// One rewrite rule. `pattern_to_replace` is the left-hand sequence that is
/// matched; `replacement_pattern` is the right-hand sequence as loaded from
/// the rule file, which stores it reversed (see [`convert_string_to_pattern`]).
/// The matcher returns paths with the deepest coordinate first, so position
/// `i` of a matched path is rewritten to `replacement_pattern[i]`.
pub struct Pattern {
    pub pattern_to_replace: Vec<CategoryId>,
    pub replacement_pattern: Vec<CategoryId>,
}

impl Pattern {
    /// Both sides have the same, nonzero length.
    pub open spec fn wf(self) -> bool {
        &&& self.pattern_to_replace@.len() == self.replacement_pattern@.len()
        &&& self.pattern_to_replace@.len() >= 1
    }

    pub fn new(pattern_to_replace: Vec<CategoryId>, replacement_pattern: Vec<CategoryId>) -> (r:
        Pattern)
        ensures
            r.pattern_to_replace == pattern_to_replace,
            r.replacement_pattern == replacement_pattern,
    {
        Pattern { pattern_to_replace, replacement_pattern }
    }
}

/// A rule line the loader rejects, with the offending line's content.
#[derive(Debug)]
pub enum LoadError {
    /// Not exactly one `=` in the line's code.
    SideCount { line: Vec<u8> },
    /// The two sides of the `=` differ in length.
    UnequalLength { line: Vec<u8> },
    /// Both sides are empty: a rule must have at least one element.
    EmptySides { line: Vec<u8> },
    /// A side holds a byte outside the fixed alphabet.
    UnknownSymbol { line: Vec<u8> },
}

pub open spec fn load_error_line(e: LoadError) -> Seq<u8> {
    match e {
        LoadError::SideCount { line } => line@,
        LoadError::UnequalLength { line } => line@,
        LoadError::EmptySides { line } => line@,
        LoadError::UnknownSymbol { line } => line@,
    }
}

/// Blank, tab, carriage return: what trimming removes around a line's code.
pub open spec fn is_space(b: u8) -> bool {
    b == 32 || b == 9 || b == 13
}

/// Neither `(` nor `)`: what survives paren stripping.
pub open spec fn keep_symbol(b: u8) -> bool {
    b != 40 && b != 41
}

/// The position of the first `//` of the line, or its length if there is
/// none; everything from there on is a comment.
pub open spec fn spec_comment_start(s: Seq<u8>) -> int
    decreases s.len(),
{
    if s.len() < 2 {
        s.len() as int
    } else if s[0] == 47 && s[1] == 47 {
        0
    } else {
        1 + spec_comment_start(s.skip(1))
    }
}

pub proof fn lemma_comment_start(s: Seq<u8>)
    ensures
        0 <= spec_comment_start(s) <= s.len(),
        spec_comment_start(s) < s.len() ==> {
            &&& spec_comment_start(s) + 1 < s.len()
            &&& s[spec_comment_start(s)] == 47
            &&& s[spec_comment_start(s) + 1] == 47
        },
        forall|m: int|
            0 <= m < spec_comment_start(s) && m + 1 < s.len() ==> !(#[trigger] s[m] == 47 && s[m
                + 1] == 47),
    decreases s.len(),
{
    if s.len() < 2 {
    } else if s[0] == 47 && s[1] == 47 {
    } else {
        lemma_comment_start(s.skip(1));
        assert forall|m: int|
            0 <= m < spec_comment_start(s) && m + 1 < s.len() implies !(#[trigger] s[m] == 47 && s[m
            + 1] == 47) by {
            if m > 0 {
                assert(s.skip(1)[m - 1] == s[m]);
                assert(s.skip(1)[m] == s[m + 1]);
            }
        }
    }
}

/// Leading spaces removed.
pub open spec fn spec_trim_left(s: Seq<u8>) -> Seq<u8>
    decreases s.len(),
{
    if s.len() > 0 && is_space(s[0]) {
        spec_trim_left(s.skip(1))
    } else {
        s
    }
}

/// Trailing spaces removed.
pub open spec fn spec_trim_right(s: Seq<u8>) -> Seq<u8>
    decreases s.len(),
{
    if s.len() > 0 && is_space(s.last()) {
        spec_trim_right(s.drop_last())
    } else {
        s
    }
}

pub open spec fn spec_trim(s: Seq<u8>) -> Seq<u8> {
    spec_trim_right(spec_trim_left(s))
}

/// Trimming the left is skipping the leading run of spaces.
pub proof fn lemma_trim_left_skip(s: Seq<u8>, a: int)
    requires
        0 <= a <= s.len(),
        forall|m: int| 0 <= m < a ==> is_space(s[m]),
        a < s.len() ==> !is_space(s[a]),
    ensures
        spec_trim_left(s) == s.skip(a),
    decreases a,
{
    if a == 0 {
        assert(s.skip(0) =~= s);
    } else {
        assert(is_space(s[0]));
        lemma_trim_left_skip(s.skip(1), a - 1);
        assert(s.skip(1).skip(a - 1) =~= s.skip(a));
    }
}

/// Trimming the right is taking everything before the trailing run of
/// spaces.
pub proof fn lemma_trim_right_take(s: Seq<u8>, b: int)
    requires
        0 <= b <= s.len(),
        forall|m: int| b <= m < s.len() ==> is_space(s[m]),
        b > 0 ==> !is_space(s[b - 1]),
    ensures
        spec_trim_right(s) == s.take(b),
    decreases s.len() - b,
{
    if b == s.len() {
        assert(s.take(b) =~= s);
    } else {
        assert(is_space(s.last()));
        lemma_trim_right_take(s.drop_last(), b);
        assert(s.drop_last().take(b) =~= s.take(b));
    }
}

/// All parens removed, everything else kept in order.
pub open spec fn spec_strip_parens(s: Seq<u8>) -> Seq<u8>
    decreases s.len(),
{
    if s.len() == 0 {
        Seq::empty()
    } else {
        let rest = spec_strip_parens(s.skip(1));
        if keep_symbol(s[0]) {
            seq![s[0]] + rest
        } else {
            rest
        }
    }
}

/// A line's trimmed code: the part before any `//` comment, with
/// surrounding spaces removed. Whether a line is blank — and so skipped —
/// is judged on this, before any paren stripping.
pub open spec fn spec_trimmed_code(line: Seq<u8>) -> Seq<u8> {
    spec_trim(line.take(spec_comment_start(line)))
}

/// A line's code as parsed: the trimmed code, with all parens stripped
/// when it starts with one (a purely tolerated marker). A line of only
/// parens thus has an empty code, which fails the side-count check rather
/// than being skipped.
pub open spec fn spec_code_of(line: Seq<u8>) -> Seq<u8> {
    let trimmed = spec_trimmed_code(line);
    if trimmed.len() > 0 && trimmed[0] == 40 {
        spec_strip_parens(trimmed)
    } else {
        trimmed
    }
}

/// Extracts a line's trimmed code: comment stripped, spaces trimmed.
fn line_code(line: &Vec<u8>) -> (code: Vec<u8>)
    ensures
        code@ == spec_trimmed_code(line@),
{
    let len = line.len();
    // Find the first `//`.
    let mut cpos: usize = len;
    if len >= 2 {
        let mut i: usize = 0;
        while i + 1 < len
            invariant_except_break
                i < len,
                cpos == len,
                len == line@.len(),
                forall|m: int|
                    0 <= m < i && m + 1 < len ==> !(#[trigger] line@[m] == 47 && line@[m + 1]
                        == 47),
            ensures
                len == line@.len(),
                cpos <= len,
                cpos < len ==> {
                    &&& cpos + 1 < len
                    &&& line@[cpos as int] == 47
                    &&& line@[cpos as int + 1] == 47
                    &&& forall|m: int|
                        0 <= m < cpos && m + 1 < len ==> !(#[trigger] line@[m] == 47 && line@[m
                            + 1] == 47)
                },
                cpos == len ==> forall|m: int|
                    0 <= m && m + 1 < len ==> !(#[trigger] line@[m] == 47 && line@[m + 1] == 47),
            decreases len - i,
        {
            if line[i] == 47 && line[i + 1] == 47 {
                cpos = i;
                break;
            }
            i = i + 1;
        }
    }
    proof {
        lemma_comment_start(line@);
        let cs = spec_comment_start(line@);
        if cpos < len {
            if cs < cpos {
                assert(line@[cs] == 47 && line@[cs + 1] == 47);
                assert(false);
            }
            if cs > cpos {
                assert(line@[cpos as int] == 47 && line@[cpos as int + 1] == 47);
                assert(false);
            }
        } else {
            if cs < len {
                assert(line@[cs] == 47 && line@[cs + 1] == 47);
                assert(false);
            }
        }
        assert(cs == cpos);
    }
    // Trim spaces off both ends of the uncommented part.
    let mut a: usize = 0;
    while a < cpos && (line[a] == 32 || line[a] == 9 || line[a] == 13)
        invariant
            a <= cpos,
            cpos <= len,
            len == line@.len(),
            forall|m: int| 0 <= m < a ==> is_space(line@[m]),
        decreases cpos - a,
    {
        a = a + 1;
    }
    let mut b: usize = cpos;
    while b > a && (line[b - 1] == 32 || line[b - 1] == 9 || line[b - 1] == 13)
        invariant
            a <= b <= cpos,
            cpos <= len,
            len == line@.len(),
            forall|m: int| b <= m < cpos ==> is_space(line@[m]),
        decreases b,
    {
        b = b - 1;
    }
    let ghost uncommented = line@.take(cpos as int);
    proof {
        lemma_trim_left_skip(uncommented, a as int);
        lemma_trim_right_take(uncommented.skip(a as int), b - a);
        assert(uncommented.skip(a as int).take(b - a) =~= line@.subrange(a as int, b as int));
        assert(spec_trim(uncommented) == line@.subrange(a as int, b as int));
    }
    // Copy the trimmed code.
    let mut code: Vec<u8> = Vec::new();
    let mut m: usize = a;
    while m < b
        invariant
            a <= m <= b <= cpos <= len,
            len == line@.len(),
            code@.len() == m - a,
            forall|j: int| 0 <= j < m - a ==> code@[j] == line@[a + j],
        decreases b - m,
    {
        code.push(line[m]);
        m = m + 1;
    }
    proof {
        assert(code@ =~= line@.subrange(a as int, b as int));
    }
    code
}

/// Removes every paren of a parenthesized code, keeping the rest in order.
fn strip_parens_vec(v: &Vec<u8>) -> (r: Vec<u8>)
    ensures
        r@ == spec_strip_parens(v@),
{
    let mut r: Vec<u8> = Vec::new();
    let len = v.len();
    proof {
        assert(v@.skip(0) =~= v@);
        assert(r@ + spec_strip_parens(v@) =~= spec_strip_parens(v@));
    }
    let mut m: usize = 0;
    while m < len
        invariant
            m <= len,
            len == v@.len(),
            r@ + spec_strip_parens(v@.skip(m as int)) == spec_strip_parens(v@),
        decreases len - m,
    {
        let ghost rest = v@.skip(m as int);
        proof {
            assert(rest.len() > 0);
            assert(rest[0] == v@[m as int]);
            assert(rest.skip(1) =~= v@.skip(m + 1));
        }
        let b = v[m];
        if b != 40 && b != 41 {
            r.push(b);
            proof {
                assert(r@ + spec_strip_parens(v@.skip(m + 1)) =~= spec_strip_parens(v@));
            }
        } else {
            proof {
                assert(r@ + spec_strip_parens(v@.skip(m + 1)) =~= spec_strip_parens(v@));
            }
        }
        m = m + 1;
    }
    proof {
        assert(v@.skip(len as int) =~= Seq::<u8>::empty());
        assert(r@ =~= spec_strip_parens(v@));
    }
    r
}

/// Position `p` holds the one and only `=` of the code.
pub open spec fn unique_eq_at(code: Seq<u8>, p: int) -> bool {
    &&& 0 <= p < code.len()
    &&& code[p] == 61
    &&& forall|m: int| 0 <= m < code.len() && m != p ==> code[m] != 61
}

/// The code splits on exactly one `=`.
pub open spec fn split_ok(code: Seq<u8>) -> bool {
    exists|p: int| unique_eq_at(code, p)
}

pub open spec fn spec_eq_pos(code: Seq<u8>) -> int {
    choose|p: int| unique_eq_at(code, p)
}

/// The position of a unique `=` determines the split.
pub proof fn lemma_eq_pos(code: Seq<u8>, p: int)
    requires
        unique_eq_at(code, p),
    ensures
        split_ok(code),
        spec_eq_pos(code) == p,
{
    assert(split_ok(code));
    let q = spec_eq_pos(code);
    assert(unique_eq_at(code, q));
    if q != p {
        assert(code[q] != 61);
        assert(false);
    }
}

pub open spec fn spec_left(code: Seq<u8>) -> Seq<u8> {
    code.take(spec_eq_pos(code))
}

pub open spec fn spec_right(code: Seq<u8>) -> Seq<u8> {
    code.skip(spec_eq_pos(code) + 1)
}

/// Every byte of the side is a symbol of the fixed alphabet.
pub open spec fn all_known(s: Seq<u8>) -> bool {
    forall|m: int|
        0 <= m < s.len() ==> (#[trigger] spec_category_of_symbol(s[m])) is Some
}

/// The side's bytes mapped through the alphabet, in order.
pub open spec fn spec_mapped(s: Seq<u8>) -> Seq<CategoryId> {
    Seq::new(s.len(), |m: int| spec_category_of_symbol(s[m]).unwrap())
}

pub open spec fn spec_rev_cats(s: Seq<CategoryId>) -> Seq<CategoryId> {
    Seq::new(s.len(), |j: int| s[s.len() - 1 - j])
}

/// The line's code parses into a rule: one `=`, sides of one equal nonzero
/// length, all symbols known.
pub open spec fn line_good(line: Seq<u8>) -> bool {
    let code = spec_code_of(line);
    &&& spec_trimmed_code(line).len() > 0
    &&& split_ok(code)
    &&& spec_left(code).len() == spec_right(code).len()
    &&& spec_left(code).len() >= 1
    &&& all_known(spec_left(code))
    &&& all_known(spec_right(code))
}

/// The line is acceptable to the loader: blank (no trimmed code) or a
/// good rule.
pub open spec fn spec_line_ok(line: Seq<u8>) -> bool {
    spec_trimmed_code(line).len() == 0 || line_good(line)
}

/// The rule a line contributes: left side mapped, right side mapped and
/// reversed; none for a blank or bad line.
pub open spec fn spec_line_rule(line: Seq<u8>) -> Option<(Seq<CategoryId>, Seq<CategoryId>)> {
    if line_good(line) {
        Some(
            (
                spec_mapped(spec_left(spec_code_of(line))),
                spec_rev_cats(spec_mapped(spec_right(spec_code_of(line)))),
            ),
        )
    } else {
        None
    }
}

/// The error is the right one for this line: it carries the line itself,
/// and its variant names exactly what is wrong with the line's code.
pub open spec fn matches_line_error(e: LoadError, line: Seq<u8>) -> bool {
    let code = spec_code_of(line);
    &&& load_error_line(e) == line
    &&& (e is SideCount <==> (spec_trimmed_code(line).len() > 0 && !split_ok(code)))
    &&& (e is UnequalLength <==> (split_ok(code) && spec_left(code).len() != spec_right(
        code,
    ).len()))
    &&& (e is EmptySides <==> (split_ok(code) && spec_left(code).len() == spec_right(code).len()
        && spec_left(code).len() == 0))
    &&& (e is UnknownSymbol <==> (split_ok(code) && spec_left(code).len() == spec_right(code).len()
        && spec_left(code).len() >= 1 && !(all_known(spec_left(code)) && all_known(
        spec_right(code),
    ))))
}

fn copy_bytes(v: &Vec<u8>) -> (r: Vec<u8>)
    ensures
        r@ == v@,
{
    let mut r: Vec<u8> = Vec::new();
    let mut i: usize = 0;
    let len = v.len();
    while i < len
        invariant
            i <= len,
            len == v@.len(),
            r@ == v@.take(i as int),
        decreases len - i,
    {
        let ghost pre = r@;
        r.push(v[i]);
        proof {
            assert(r@ =~= v@.take(i + 1));
        }
        i = i + 1;
    }
    proof {
        assert(v@.take(len as int) =~= v@);
    }
    r
}

/// Parses one line of the rule file. A blank or comment-only line yields
/// `Ok(None)`; a well-formed rule line yields the rule, with the right
/// side reversed, exactly as the format's quirk demands; anything else
/// yields the error naming what is wrong, carrying the line itself.
pub fn convert_string_to_pattern(line: &Vec<u8>) -> (r: Result<Option<Pattern>, LoadError>)
    ensures
        (r matches Ok(p) && p is None) <==> spec_trimmed_code(line@).len() == 0,
        line_good(line@) ==> (r matches Ok(p) && p matches Some(rule) && rule.pattern_to_replace@
            == spec_mapped(spec_left(spec_code_of(line@))) && rule.replacement_pattern@
            == spec_rev_cats(spec_mapped(spec_right(spec_code_of(line@)))) && rule.wf()),
        (r matches Ok(p) && p is Some) ==> line_good(line@),
        r matches Err(e) ==> !spec_line_ok(line@) && matches_line_error(e, line@),
        !spec_line_ok(line@) ==> r is Err,
{
    let trimmed = line_code(line);
    if trimmed.len() == 0 {
        return Ok(None);
    }
    // The paren wrapper is a tolerated marker: strip every paren before
    // parsing. Blankness was judged above, before the stripping, so a
    // line of only parens falls through and fails the side-count check.
    let code = if trimmed[0] == 40 {
        strip_parens_vec(&trimmed)
    } else {
        trimmed
    };
    proof {
        assert(code@ == spec_code_of(line@));
    }
    let clen = code.len();
    // Exactly one `=` splits the line into its two sides.
    let mut eqp: usize = 0;
    let mut eq_found = false;
    let mut k: usize = 0;
    while k < clen
        invariant
            k <= clen,
            clen == code@.len(),
            code@ == spec_code_of(line@),
            spec_trimmed_code(line@).len() > 0,
            !eq_found ==> forall|m: int| 0 <= m < k ==> code@[m] != 61,
            eq_found ==> {
                &&& eqp < k
                &&& code@[eqp as int] == 61
                &&& forall|m: int| 0 <= m < k && m != eqp ==> code@[m] != 61
            },
        decreases clen - k,
    {
        if code[k] == 61 {
            if eq_found {
                proof {
                    assert(!split_ok(code@)) by {
                        if split_ok(code@) {
                            let p = spec_eq_pos(code@);
                            assert(unique_eq_at(code@, p));
                            if p != eqp {
                                assert(code@[eqp as int] != 61);
                            } else {
                                assert(code@[k as int] != 61);
                            }
                        }
                    }
                }
                return Err(LoadError::SideCount { line: copy_bytes(line) });
            }
            eqp = k;
            eq_found = true;
        }
        k = k + 1;
    }
    if !eq_found {
        proof {
            assert(!split_ok(code@)) by {
                if split_ok(code@) {
                    let p = spec_eq_pos(code@);
                    assert(unique_eq_at(code@, p));
                    assert(code@[p] != 61);
                }
            }
        }
        return Err(LoadError::SideCount { line: copy_bytes(line) });
    }
    proof {
        lemma_eq_pos(code@, eqp as int);
        assert(spec_left(code@).len() == eqp);
        assert(spec_right(code@).len() == clen - eqp - 1);
    }
    let llen = eqp;
    let rlen = clen - eqp - 1;
    if llen != rlen {
        return Err(LoadError::UnequalLength { line: copy_bytes(line) });
    }
    if llen == 0 {
        return Err(LoadError::EmptySides { line: copy_bytes(line) });
    }
    // Map the left side through the alphabet.
    let mut lhs_v: Vec<CategoryId> = Vec::new();
    let mut m: usize = 0;
    while m < llen
        invariant
            m <= llen,
            llen == eqp < clen,
            clen == code@.len(),
            code@ == spec_code_of(line@),
            spec_trimmed_code(line@).len() > 0,
            lhs_v@.len() == m,
            unique_eq_at(code@, eqp as int),
            split_ok(code@),
            spec_eq_pos(code@) == eqp,
            llen == rlen,
            rlen == clen - eqp - 1,
            llen >= 1,
            forall|j: int|
                0 <= j < m ==> (#[trigger] spec_category_of_symbol(code@[j])) is Some && lhs_v@[j]
                    == spec_category_of_symbol(code@[j]).unwrap(),
        decreases llen - m,
    {
        match category_of_symbol(code[m]) {
            Some(c) => {
                lhs_v.push(c);
            },
            None => {
                proof {
                    assert(spec_left(code@)[m as int] == code@[m as int]);
                    assert(!all_known(spec_left(code@)));
                }
                return Err(LoadError::UnknownSymbol { line: copy_bytes(line) });
            },
        }
        m = m + 1;
    }
    proof {
        assert forall|j: int| 0 <= j < spec_left(code@).len() implies (
        #[trigger] spec_category_of_symbol(spec_left(code@)[j])) is Some by {
            assert(spec_left(code@)[j] == code@[j]);
            assert(spec_category_of_symbol(code@[j]) is Some);
        }
        assert(lhs_v@ =~= spec_mapped(spec_left(code@))) by {
            assert forall|j: int| 0 <= j < lhs_v@.len() implies lhs_v@[j] == spec_mapped(
                spec_left(code@),
            )[j] by {
                assert(spec_left(code@)[j] == code@[j]);
            }
        }
    }
    // Map the right side, then reverse it: the file format stores the
    // replacement flipped, and the quirk is preserved as-is.
    let mut rhs_f: Vec<CategoryId> = Vec::new();
    let mut m2: usize = 0;
    while m2 < rlen
        invariant
            m2 <= rlen,
            rlen == clen - eqp - 1,
            eqp < clen,
            clen == code@.len(),
            code@ == spec_code_of(line@),
            spec_trimmed_code(line@).len() > 0,
            rhs_f@.len() == m2,
            unique_eq_at(code@, eqp as int),
            split_ok(code@),
            spec_eq_pos(code@) == eqp,
            llen == rlen,
            llen == eqp,
            llen >= 1,
            forall|j: int|
                0 <= j < m2 ==> (#[trigger] spec_category_of_symbol(code@[eqp + 1 + j])) is Some
                    && rhs_f@[j] == spec_category_of_symbol(code@[eqp + 1 + j]).unwrap(),
        decreases rlen - m2,
    {
        match category_of_symbol(code[eqp + 1 + m2]) {
            Some(c) => {
                rhs_f.push(c);
            },
            None => {
                proof {
                    assert(spec_right(code@)[m2 as int] == code@[eqp + 1 + m2]);
                    assert(!all_known(spec_right(code@)));
                }
                return Err(LoadError::UnknownSymbol { line: copy_bytes(line) });
            },
        }
        m2 = m2 + 1;
    }
    proof {
        assert forall|j: int| 0 <= j < spec_right(code@).len() implies (
        #[trigger] spec_category_of_symbol(spec_right(code@)[j])) is Some by {
            assert(spec_right(code@)[j] == code@[eqp + 1 + j]);
            assert(spec_category_of_symbol(code@[eqp + 1 + j]) is Some);
        }
        assert(rhs_f@ =~= spec_mapped(spec_right(code@))) by {
            assert forall|j: int| 0 <= j < rhs_f@.len() implies rhs_f@[j] == spec_mapped(
                spec_right(code@),
            )[j] by {
                assert(spec_right(code@)[j] == code@[eqp + 1 + j]);
            }
        }
    }
    let mut rhs_v: Vec<CategoryId> = Vec::new();
    let mut j: usize = 0;
    while j < rlen
        invariant
            j <= rlen,
            rhs_f@.len() == rlen,
            rhs_v@.len() == j,
            forall|q: int| 0 <= q < j ==> #[trigger] rhs_v@[q] == rhs_f@[rlen - 1 - q],
        decreases rlen - j,
    {
        rhs_v.push(rhs_f[rlen - 1 - j]);
        j = j + 1;
    }
    proof {
        assert(rhs_v@ =~= spec_rev_cats(spec_mapped(spec_right(code@))));
        assert(line_good(line@));
    }
    Ok(Some(Pattern::new(lhs_v, rhs_v)))
}

/// The position of the first newline, or the length if there is none.
pub open spec fn spec_first_newline(s: Seq<u8>) -> int
    decreases s.len(),
{
    if s.len() == 0 {
        0
    } else if s[0] == 10 {
        0
    } else {
        1 + spec_first_newline(s.skip(1))
    }
}

pub proof fn lemma_first_newline(s: Seq<u8>)
    ensures
        0 <= spec_first_newline(s) <= s.len(),
        spec_first_newline(s) < s.len() ==> s[spec_first_newline(s)] == 10,
        forall|m: int| 0 <= m < spec_first_newline(s) ==> #[trigger] s[m] != 10,
    decreases s.len(),
{
    if s.len() == 0 {
    } else if s[0] == 10 {
    } else {
        lemma_first_newline(s.skip(1));
        assert forall|m: int| 0 <= m < spec_first_newline(s) implies #[trigger] s[m] != 10 by {
            if m > 0 {
                assert(s.skip(1)[m - 1] == s[m]);
            }
        }
    }
}

/// The file split at every newline; a trailing newline yields a final
/// empty line, which the loader skips anyway.
pub open spec fn spec_lines(s: Seq<u8>) -> Seq<Seq<u8>>
    decreases s.len(),
    via spec_lines_decreases
{
    let k = spec_first_newline(s);
    if k >= s.len() {
        seq![s]
    } else {
        seq![s.take(k)] + spec_lines(s.skip(k + 1))
    }
}

#[via_fn]
proof fn spec_lines_decreases(s: Seq<u8>) {
    lemma_first_newline(s);
}

/// The rules the lines contribute, in file order: one per good rule line,
/// none per blank line.
pub open spec fn spec_rules_of(lines: Seq<Seq<u8>>) -> Seq<(Seq<CategoryId>, Seq<CategoryId>)>
    decreases lines.len(),
{
    if lines.len() == 0 {
        Seq::empty()
    } else {
        let head = match spec_line_rule(lines[0]) {
            Some(p) => seq![p],
            None => Seq::empty(),
        };
        head + spec_rules_of(lines.skip(1))
    }
}

/// Appending a line appends its contribution.
pub proof fn lemma_rules_of_push(lines: Seq<Seq<u8>>, x: Seq<u8>)
    ensures
        spec_rules_of(lines.push(x)) == spec_rules_of(lines) + (match spec_line_rule(x) {
            Some(p) => seq![p],
            None => Seq::<(Seq<CategoryId>, Seq<CategoryId>)>::empty(),
        }),
    decreases lines.len(),
{
    let hx = match spec_line_rule(x) {
        Some(p) => seq![p],
        None => Seq::<(Seq<CategoryId>, Seq<CategoryId>)>::empty(),
    };
    if lines.len() == 0 {
        assert(lines.push(x) =~= seq![x]);
        assert(seq![x].skip(1) =~= Seq::<Seq<u8>>::empty());
        assert(spec_rules_of(Seq::<Seq<u8>>::empty()) == Seq::<
            (Seq<CategoryId>, Seq<CategoryId>),
        >::empty());
        assert(seq![x][0] == x);
        assert(spec_rules_of(seq![x]) =~= hx);
        assert(spec_rules_of(lines) + hx =~= hx);
    } else {
        assert(lines.push(x).skip(1) =~= lines.skip(1).push(x));
        lemma_rules_of_push(lines.skip(1), x);
        assert(lines.push(x)[0] == lines[0]);
        let h0 = match spec_line_rule(lines[0]) {
            Some(p) => seq![p],
            None => Seq::<(Seq<CategoryId>, Seq<CategoryId>)>::empty(),
        };
        assert(spec_rules_of(lines.push(x)) == h0 + (spec_rules_of(lines.skip(1)) + hx));
        assert(h0 + (spec_rules_of(lines.skip(1)) + hx) =~= (h0 + spec_rules_of(lines.skip(1)))
            + hx);
    }
}

fn subrange_vec(v: &Vec<u8>, a: usize, b: usize) -> (r: Vec<u8>)
    requires
        a <= b <= v@.len(),
    ensures
        r@ == v@.subrange(a as int, b as int),
{
    let mut r: Vec<u8> = Vec::new();
    let mut m: usize = a;
    while m < b
        invariant
            a <= m <= b <= v@.len(),
            r@.len() == m - a,
            forall|j: int| 0 <= j < m - a ==> #[trigger] r@[j] == v@[a + j],
        decreases b - m,
    {
        r.push(v[m]);
        m = m + 1;
    }
    proof {
        assert(r@ =~= v@.subrange(a as int, b as int));
    }
    r
}

/// Splits the file's bytes into its lines.
fn split_lines(input: &Vec<u8>) -> (r: Vec<Vec<u8>>)
    ensures
        r@.len() == spec_lines(input@).len(),
        forall|i: int| 0 <= i < r@.len() ==> (#[trigger] r@[i])@ == spec_lines(input@)[i],
{
    let len = input.len();
    let mut lines: Vec<Vec<u8>> = Vec::new();
    let mut start: usize = 0;
    let ghost mut done: Seq<Seq<u8>> = Seq::empty();
    proof {
        assert(input@.skip(0) =~= input@);
        assert(done + spec_lines(input@) =~= spec_lines(input@));
    }
    loop
        invariant_except_break
            start <= len,
            len == input@.len(),
            done.len() == lines@.len(),
            forall|i: int| 0 <= i < done.len() ==> (#[trigger] lines@[i])@ == done[i],
            spec_lines(input@) == done + spec_lines(input@.skip(start as int)),
        ensures
            done.len() == lines@.len(),
            forall|i: int| 0 <= i < done.len() ==> (#[trigger] lines@[i])@ == done[i],
            spec_lines(input@) == done,
        decreases len - start,
    {
        let ghost rem = input@.skip(start as int);
        let mut j: usize = start;
        while j < len && input[j] != 10
            invariant
                start <= j <= len,
                len == input@.len(),
                forall|m: int| start <= m < j ==> #[trigger] input@[m] != 10,
            decreases len - j,
        {
            j = j + 1;
        }
        proof {
            lemma_first_newline(rem);
            let k = spec_first_newline(rem);
            assert forall|m: int| 0 <= m < j - start implies #[trigger] rem[m] != 10 by {
                assert(rem[m] == input@[start + m]);
            }
            if k < j - start {
                assert(rem[k] != 10);
                assert(false);
            }
            if k > j - start {
                if j < len {
                    assert(rem[j - start] == input@[j as int]);
                    assert(false);
                } else {
                    assert(k <= rem.len());
                    assert(rem.len() == len - start);
                    assert(false);
                }
            }
            assert(k == j - start);
        }
        let piece = subrange_vec(input, start, j);
        proof {
            assert(piece@ =~= rem.take(j - start));
        }
        lines.push(piece);
        if j == len {
            proof {
                assert(spec_first_newline(rem) >= rem.len());
                assert(spec_lines(rem) == seq![rem]);
                assert(rem.take(j - start) =~= rem);
                done = done.push(rem);
                assert(spec_lines(input@) =~= done);
            }
            break;
        } else {
            proof {
                let k = spec_first_newline(rem);
                assert(k < rem.len());
                assert(spec_lines(rem) == seq![rem.take(k)] + spec_lines(rem.skip(k + 1)));
                assert(rem.skip(k + 1) =~= input@.skip(j + 1));
                done = done.push(rem.take(k));
                assert(spec_lines(input@) =~= done + spec_lines(input@.skip(j + 1)));
            }
            start = j + 1;
        }
    }
    lines
}

/// Loads a whole rule file: splits it into lines, parses each, and
/// collects the rules of the good lines in order. Every rule of a loaded
/// file has sides of one equal nonzero length; a file with any bad line is
/// rejected with the first bad line's error.
pub fn parse_rules(input: &Vec<u8>) -> (r: Result<Vec<Pattern>, LoadError>)
    ensures
        r is Ok <==> (forall|li: int|
            0 <= li < spec_lines(input@).len() ==> spec_line_ok(#[trigger] spec_lines(input@)[li])),
        r matches Ok(v) ==> {
            &&& v@.len() == spec_rules_of(spec_lines(input@)).len()
            &&& forall|i: int|
                0 <= i < v@.len() ==> (#[trigger] v@[i]).pattern_to_replace@ == spec_rules_of(
                    spec_lines(input@),
                )[i].0 && v@[i].replacement_pattern@ == spec_rules_of(spec_lines(input@))[i].1
            &&& forall|i: int| 0 <= i < v@.len() ==> (#[trigger] v@[i]).wf()
        },
        r matches Err(e) ==> exists|li: int|
            {
                &&& 0 <= li < spec_lines(input@).len()
                &&& !spec_line_ok(#[trigger] spec_lines(input@)[li])
                &&& (forall|m: int| 0 <= m < li ==> spec_line_ok(spec_lines(input@)[m]))
                &&& matches_line_error(e, spec_lines(input@)[li])
            },
{
    let lines = split_lines(input);
    let n_lines = lines.len();
    let mut out: Vec<Pattern> = Vec::new();
    let mut li: usize = 0;
    while li < n_lines
        invariant
            li <= n_lines,
            n_lines == lines@.len(),
            lines@.len() == spec_lines(input@).len(),
            forall|i: int| 0 <= i < lines@.len() ==> (#[trigger] lines@[i])@ == spec_lines(input@)[i],
            forall|m: int| 0 <= m < li ==> spec_line_ok(#[trigger] spec_lines(input@)[m]),
            out@.len() == spec_rules_of(spec_lines(input@).take(li as int)).len(),
            forall|i: int|
                0 <= i < out@.len() ==> (#[trigger] out@[i]).pattern_to_replace@ == spec_rules_of(
                    spec_lines(input@).take(li as int),
                )[i].0 && out@[i].replacement_pattern@ == spec_rules_of(
                    spec_lines(input@).take(li as int),
                )[i].1,
            forall|i: int| 0 <= i < out@.len() ==> (#[trigger] out@[i]).wf(),
        decreases n_lines - li,
    {
        let ghost lseq = spec_lines(input@);
        let ghost cur = lseq[li as int];
        proof {
            assert(lseq.take(li + 1) =~= lseq.take(li as int).push(cur));
            lemma_rules_of_push(lseq.take(li as int), cur);
        }
        match convert_string_to_pattern(&lines[li]) {
            Ok(opt) => {
                match opt {
                    None => {
                        proof {
                            assert(spec_trimmed_code(cur).len() == 0);
                            assert(spec_line_rule(cur) is None);
                            assert(spec_rules_of(lseq.take(li + 1)) =~= spec_rules_of(
                                lseq.take(li as int),
                            ));
                        }
                    },
                    Some(rule) => {
                        proof {
                            assert(line_good(cur));
                            assert(spec_line_rule(cur) matches Some(p) && p.0
                                == rule.pattern_to_replace@ && p.1 == rule.replacement_pattern@);
                        }
                        out.push(rule);
                    },
                }
            },
            Err(e) => {
                proof {
                    assert(!spec_line_ok(lseq[li as int]));
                    assert(matches_line_error(e, lseq[li as int]));
                }
                return Err(e);
            },
        }
        li = li + 1;
    }
    proof {
        assert(spec_lines(input@).take(n_lines as int) =~= spec_lines(input@));
    }
    Ok(out)
}

} // verus!
