//! Text building blocks: decimal renderings of counters, synthesized
//! identifiers, and the few string operations the rest of the crate needs.

use vstd::prelude::*;

verus! {

// `String::push` and `String::push_str` have no specification in vstd yet;
// their contracts below state exactly what the standard library documents.

/// Relies on `String::push`: appends one character.
pub assume_specification[ std::string::String::push ](s: &mut std::string::String, c: char)
    ensures
        final(s)@ == old(s)@.push(c),
;

/// Relies on `String::push_str`: appends a whole string slice.
pub assume_specification[ std::string::String::push_str ](s: &mut std::string::String, other: &str)
    ensures
        final(s)@ == old(s)@ + other@,
;

/// Relies on `str::eq`: string slices compare equal exactly when their
/// character sequences do.
pub assume_specification[ <str as PartialEq>::eq ](s: &str, other: &str) -> (r: bool)
    ensures
        r == (s@ == other@),
;

/// The decimal digit character for `d`.
pub open spec fn digit_char(d: nat) -> char
    recommends
        d < 10,
{
    if d == 0 {
        '0'
    } else if d == 1 {
        '1'
    } else if d == 2 {
        '2'
    } else if d == 3 {
        '3'
    } else if d == 4 {
        '4'
    } else if d == 5 {
        '5'
    } else if d == 6 {
        '6'
    } else if d == 7 {
        '7'
    } else if d == 8 {
        '8'
    } else {
        '9'
    }
}

/// The decimal rendering of `n`, most significant digit first, without
/// leading zeros (`0` renders as `"0"`).
pub open spec fn dec_rep(n: nat) -> Seq<char>
    decreases n,
{
    if n < 10 {
        seq![digit_char(n)]
    } else {
        dec_rep(n / 10).push(digit_char(n % 10))
    }
}

pub proof fn lemma_dec_rep_len(n: nat)
    ensures
        dec_rep(n).len() >= 1,
        n >= 10 ==> dec_rep(n).len() >= 2,
    decreases n,
{
    if n >= 10 {
        lemma_dec_rep_len(n / 10);
    }
}

/// Distinct numbers have distinct decimal renderings.
pub proof fn lemma_dec_rep_injective(a: nat, b: nat)
    ensures
        dec_rep(a) == dec_rep(b) ==> a == b,
    decreases a,
{
    if dec_rep(a) == dec_rep(b) {
        lemma_dec_rep_len(a);
        lemma_dec_rep_len(b);
        if a < 10 && b < 10 {
            assert(dec_rep(a)[0] == dec_rep(b)[0]);
        } else if a < 10 {
            assert(dec_rep(a).len() == 1);
        } else if b < 10 {
            assert(dec_rep(b).len() == 1);
        } else {
            assert(dec_rep(a / 10).push(digit_char(a % 10)).drop_last() =~= dec_rep(a / 10));
            assert(dec_rep(b / 10).push(digit_char(b % 10)).drop_last() =~= dec_rep(b / 10));
            assert(dec_rep(a / 10) == dec_rep(b / 10));
            lemma_dec_rep_injective(a / 10, b / 10);
            assert(dec_rep(a).last() == dec_rep(b).last());
            assert(digit_char(a % 10) == digit_char(b % 10));
            assert(a % 10 == b % 10);
            assert(a == (a / 10) * 10 + a % 10) by (nonlinear_arith);
            assert(b == (b / 10) * 10 + b % 10) by (nonlinear_arith);
        }
    }
}

fn digit_exec(d: u64) -> (c: char)
    requires
        d < 10,
    ensures
        c == digit_char(d as nat),
{
    if d == 0 {
        '0'
    } else if d == 1 {
        '1'
    } else if d == 2 {
        '2'
    } else if d == 3 {
        '3'
    } else if d == 4 {
        '4'
    } else if d == 5 {
        '5'
    } else if d == 6 {
        '6'
    } else if d == 7 {
        '7'
    } else if d == 8 {
        '8'
    } else {
        '9'
    }
}

/// Appends the decimal rendering of `n` to `out`.
pub fn push_decimal(out: &mut String, n: u64)
    ensures
        final(out)@ == old(out)@ + dec_rep(n as nat),
    decreases n,
{
    if n < 10 {
        out.push(digit_exec(n));
    } else {
        push_decimal(out, n / 10);
        out.push(digit_exec(n % 10));
    }
    proof {
        assert(final(out)@ =~= old(out)@ + dec_rep(n as nat));
    }
}

/// The name of the `k`-th synthesized temporary.
pub open spec fn tmp_name(k: nat) -> Seq<char> {
    "tmp_"@ + dec_rep(k)
}

/// Distinct counter values give distinct temporary names.
pub proof fn lemma_tmp_name_injective(a: nat, b: nat)
    ensures
        a != b ==> tmp_name(a) != tmp_name(b),
{
    reveal_strlit("tmp_");
    if tmp_name(a) == tmp_name(b) {
        assert(dec_rep(a) =~= tmp_name(a).subrange(4, tmp_name(a).len() as int));
        assert(dec_rep(b) =~= tmp_name(b).subrange(4, tmp_name(b).len() as int));
        lemma_dec_rep_injective(a, b);
    }
}

/// Builds the name of the `k`-th synthesized temporary.
pub fn make_tmp_name(k: u64) -> (r: String)
    ensures
        r@ == tmp_name(k as nat),
{
    let mut s = String::new();
    s.push_str("tmp_");
    push_decimal(&mut s, k);
    proof {
        assert(s@ =~= tmp_name(k as nat));
    }
    s
}


/// The ASCII uppercase counterpart of a character.
pub open spec fn upper_char(c: char) -> char {
    if c == 'a' { 'A' } else if c == 'b' { 'B' } else if c == 'c' { 'C' }
    else if c == 'd' { 'D' } else if c == 'e' { 'E' } else if c == 'f' { 'F' }
    else if c == 'g' { 'G' } else if c == 'h' { 'H' } else if c == 'i' { 'I' }
    else if c == 'j' { 'J' } else if c == 'k' { 'K' } else if c == 'l' { 'L' }
    else if c == 'm' { 'M' } else if c == 'n' { 'N' } else if c == 'o' { 'O' }
    else if c == 'p' { 'P' } else if c == 'q' { 'Q' } else if c == 'r' { 'R' }
    else if c == 's' { 'S' } else if c == 't' { 'T' } else if c == 'u' { 'U' }
    else if c == 'v' { 'V' } else if c == 'w' { 'W' } else if c == 'x' { 'X' }
    else if c == 'y' { 'Y' } else if c == 'z' { 'Z' } else { c }
}

fn upper_exec(c: char) -> (r: char)
    ensures
        r == upper_char(c),
{
    match c {
        'a' => 'A', 'b' => 'B', 'c' => 'C', 'd' => 'D', 'e' => 'E', 'f' => 'F',
        'g' => 'G', 'h' => 'H', 'i' => 'I', 'j' => 'J', 'k' => 'K', 'l' => 'L',
        'm' => 'M', 'n' => 'N', 'o' => 'O', 'p' => 'P', 'q' => 'Q', 'r' => 'R',
        's' => 'S', 't' => 'T', 'u' => 'U', 'v' => 'V', 'w' => 'W', 'x' => 'X',
        'y' => 'Y', 'z' => 'Z', other => other,
    }
}

/// The synthesized name of a node's persistent-state record: `Mem` followed
/// by the node's name, its first letter capitalized.
pub open spec fn mem_struct_name(node: Seq<char>) -> Seq<char> {
    if node.len() == 0 {
        "Mem"@
    } else {
        "Mem"@ + seq![upper_char(node[0])] + node.skip(1)
    }
}

/// Builds the name of a node's persistent-state record.
pub fn make_mem_name(node: &String) -> (r: String)
    ensures
        r@ == mem_struct_name(node@),
{
    let mut s = String::new();
    s.push_str("Mem");
    let n = node.as_str().unicode_len();
    if n > 0 {
        let first = node.as_str().get_char(0);
        s.push(upper_exec(first));
        let rest = node.as_str().substring_char(1, n);
        s.push_str(rest);
        proof {
            assert(rest@ =~= node@.skip(1));
            assert(s@ =~= mem_struct_name(node@));
        }
    } else {
        proof {
            assert(s@ =~= mem_struct_name(node@));
        }
    }
    s
}

} // verus!
