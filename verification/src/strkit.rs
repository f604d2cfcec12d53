//! String utilities: the lexicographic order on paths, prefix tests,
//! separator joins and hexadecimal formatting, all with exact contracts.
use vstd::prelude::*;

verus! {

/// Lexicographic order on character sequences by Unicode scalar value.
/// For valid UTF-8 this coincides with the byte-wise order that the
/// standard library gives `String`.
pub open spec fn lex_lt(a: Seq<char>, b: Seq<char>) -> bool
    decreases a.len(),
{
    if b.len() == 0 {
        false
    } else if a.len() == 0 {
        true
    } else if a[0] != b[0] {
        (a[0] as u32) < (b[0] as u32)
    } else {
        lex_lt(a.skip(1), b.skip(1))
    }
}

/// `p` is a prefix of `s`.
pub open spec fn is_prefix(p: Seq<char>, s: Seq<char>) -> bool {
    p.len() <= s.len() && s.subrange(0, p.len() as int) == p
}

/// Two characters with the same scalar value are the same character.
pub proof fn lemma_char_inj(a: char, b: char)
    requires
        a as u32 == b as u32,
    ensures
        a == b,
{
    vstd::utf8::char_u32_cast(a, a as u32);
    vstd::utf8::char_u32_cast(b, b as u32);
}

pub proof fn lemma_lex_lt_irrefl(a: Seq<char>)
    ensures
        !lex_lt(a, a),
    decreases a.len(),
{
    if a.len() > 0 {
        lemma_lex_lt_irrefl(a.skip(1));
    }
}

pub proof fn lemma_lex_lt_trans(a: Seq<char>, b: Seq<char>, c: Seq<char>)
    requires
        lex_lt(a, b),
        lex_lt(b, c),
    ensures
        lex_lt(a, c),
    decreases a.len() + b.len() + c.len(),
{
    if a.len() == 0 || b.len() == 0 || c.len() == 0 {
        // lex_lt(b, c) forces c nonempty; if a is empty the goal is direct.
    } else {
        let ha = a[0] as u32;
        let hb = b[0] as u32;
        let hc = c[0] as u32;
        if a[0] == b[0] && b[0] == c[0] {
            lemma_lex_lt_trans(a.skip(1), b.skip(1), c.skip(1));
        } else if a[0] == c[0] {
            // Then ha == hc while ha <= hb <= hc with one strict: impossible.
            assert(false);
        }
    }
}

/// Exactly one of `lex_lt(a, b)`, `lex_lt(b, a)`, `a == b` holds.
pub proof fn lemma_lex_connex(a: Seq<char>, b: Seq<char>)
    ensures
        lex_lt(a, b) || lex_lt(b, a) || a == b,
    decreases a.len(),
{
    if a.len() == 0 && b.len() == 0 {
        assert(a =~= b);
    } else if a.len() > 0 && b.len() > 0 && a[0] == b[0] {
        lemma_lex_connex(a.skip(1), b.skip(1));
        if !lex_lt(a, b) && !lex_lt(b, a) {
            assert(!lex_lt(a.skip(1), b.skip(1)));
            assert(!lex_lt(b.skip(1), a.skip(1)));
            assert(a.skip(1) == b.skip(1));
            assert(a.len() == b.len());
            assert forall|i: int| 0 <= i < a.len() implies a[i] == b[i] by {
                if i > 0 {
                    assert(a[i] == a.skip(1)[i - 1]);
                    assert(b[i] == b.skip(1)[i - 1]);
                }
            }
            assert(a =~= b);
        }
    } else if a.len() > 0 && b.len() > 0 {
        if (a[0] as u32) < (b[0] as u32) {
            assert(lex_lt(a, b));
        } else if (b[0] as u32) < (a[0] as u32) {
            assert(lex_lt(b, a));
        } else {
            lemma_char_inj(a[0], b[0]);
        }
    }
}

pub proof fn lemma_lex_asym(a: Seq<char>, b: Seq<char>)
    requires
        lex_lt(a, b),
    ensures
        !lex_lt(b, a),
        a != b,
{
    if lex_lt(b, a) {
        lemma_lex_lt_trans(a, b, a);
        lemma_lex_lt_irrefl(a);
    }
    lemma_lex_lt_irrefl(a);
}

/// Outcome of a three-way string comparison.
pub enum StrOrder {
    Less,
    Equal,
    Greater,
}

fn str_cmp_at(a: &str, b: &str, al: usize, bl: usize, i: usize) -> (r: StrOrder)
    requires
        al == a@.len(),
        bl == b@.len(),
        i <= al,
        i <= bl,
    ensures
        (r is Less) == lex_lt(a@.skip(i as int), b@.skip(i as int)),
        (r is Greater) == lex_lt(b@.skip(i as int), a@.skip(i as int)),
        (r is Equal) == (a@.skip(i as int) == b@.skip(i as int)),
    decreases al - i,
{
    proof {
        lemma_lex_connex(a@.skip(i as int), b@.skip(i as int));
        lemma_lex_lt_irrefl(a@.skip(i as int));
        lemma_lex_lt_irrefl(b@.skip(i as int));
        if lex_lt(a@.skip(i as int), b@.skip(i as int)) {
            lemma_lex_asym(a@.skip(i as int), b@.skip(i as int));
        }
        if lex_lt(b@.skip(i as int), a@.skip(i as int)) {
            lemma_lex_asym(b@.skip(i as int), a@.skip(i as int));
        }
    }
    if i == al && i == bl {
        proof {
            assert(a@.skip(i as int) =~= b@.skip(i as int));
        }
        StrOrder::Equal
    } else if i == al {
        StrOrder::Less
    } else if i == bl {
        StrOrder::Greater
    } else {
        let ca = a.get_char(i);
        let cb = b.get_char(i);
        proof {
            assert(a@.skip(i as int)[0] == a@[i as int]);
            assert(b@.skip(i as int)[0] == b@[i as int]);
        }
        if (ca as u32) < (cb as u32) {
            StrOrder::Less
        } else if (cb as u32) < (ca as u32) {
            StrOrder::Greater
        } else {
            proof {
                lemma_char_inj(ca, cb);
                assert(a@.skip(i as int).skip(1) =~= a@.skip(i + 1));
                assert(b@.skip(i as int).skip(1) =~= b@.skip(i + 1));
            }
            let r = str_cmp_at(a, b, al, bl, i + 1);
            proof {
                if a@.skip(i + 1) == b@.skip(i + 1) {
                    assert forall|j: int| 0 <= j < a@.skip(i as int).len() implies a@.skip(
                        i as int,
                    )[j] == b@.skip(i as int)[j] by {
                        if j > 0 {
                            assert(a@.skip(i as int)[j] == a@.skip(i + 1)[j - 1]);
                            assert(b@.skip(i as int)[j] == b@.skip(i + 1)[j - 1]);
                        }
                    }
                    assert(a@.skip(i as int) =~= b@.skip(i as int));
                }
            }
            r
        }
    }
}

/// Three-way comparison of two strings in the path order.
pub fn str_cmp(a: &str, b: &str) -> (r: StrOrder)
    ensures
        (r is Less) == lex_lt(a@, b@),
        (r is Greater) == lex_lt(b@, a@),
        (r is Equal) == (a@ == b@),
{
    let al = a.unicode_len();
    let bl = b.unicode_len();
    let r = str_cmp_at(a, b, al, bl, 0);
    proof {
        assert(a@.skip(0) =~= a@);
        assert(b@.skip(0) =~= b@);
    }
    r
}

pub fn str_lt(a: &str, b: &str) -> (r: bool)
    ensures
        r == lex_lt(a@, b@),
{
    matches!(str_cmp(a, b), StrOrder::Less)
}

pub fn str_eq(a: &str, b: &str) -> (r: bool)
    ensures
        r == (a@ == b@),
{
    matches!(str_cmp(a, b), StrOrder::Equal)
}

/// Tests whether `p` is a prefix of `s`, character by character.
pub fn str_starts_with(s: &str, p: &str) -> (r: bool)
    ensures
        r == is_prefix(p@, s@),
{
    let sl = s.unicode_len();
    let pl = p.unicode_len();
    if pl > sl {
        proof {
            assert(!is_prefix(p@, s@));
        }
        return false;
    }
    let mut i: usize = 0;
    while i < pl
        invariant
            i <= pl <= sl,
            sl == s@.len(),
            pl == p@.len(),
            forall|j: int| 0 <= j < i ==> s@[j] == p@[j],
        decreases pl - i,
    {
        if s.get_char(i) as u32 != p.get_char(i) as u32 {
            proof {
                assert(s@.subrange(0, pl as int)[i as int] == s@[i as int]);
                assert(s@[i as int] != p@[i as int]);
            }
            return false;
        }
        i = i + 1;
    }
    proof {
        assert(s@.subrange(0, pl as int) =~= p@);
    }
    true
}

/// Removes the prefix `p` from `s`; returns `None` when `p` is no prefix.
pub fn strip_prefix_str(s: &str, p: &str) -> (r: Option<String>)
    ensures
        is_prefix(p@, s@) ==> r is Some && r->0@ == s@.skip(p@.len() as int),
        !is_prefix(p@, s@) ==> r is None,
{
    if str_starts_with(s, p) {
        let sl = s.unicode_len();
        let pl = p.unicode_len();
        let rest = s.substring_char(pl, sl);
        proof {
            assert(s@.subrange(pl as int, sl as int) =~= s@.skip(pl as int));
        }
        Some(rest.to_owned())
    } else {
        None
    }
}

/// Joins a directory and a name with `/`; an empty directory adds no
/// separator.
pub fn path_join(a: &str, b: &str) -> (r: String)
    ensures
        a@.len() == 0 ==> r@ == b@,
        a@.len() > 0 ==> r@ == a@ + seq!['/'] + b@,
{
    if a.is_empty() {
        b.to_owned()
    } else {
        let mut s = a.to_owned();
        s.append("/");
        s.append(b);
        proof {
            reveal_strlit("/");
            assert("/"@ =~= seq!['/']);
        }
        s
    }
}

/// The elements of `parts` joined by `|`.
pub open spec fn join_pipe_spec(parts: Seq<Seq<char>>) -> Seq<char>
    decreases parts.len(),
{
    if parts.len() == 0 {
        Seq::empty()
    } else if parts.len() == 1 {
        parts[0]
    } else {
        join_pipe_spec(parts.drop_last()) + seq!['|'] + parts.last()
    }
}

/// Joins strings with the `|` separator.
pub fn join_pipe(parts: &Vec<String>) -> (r: String)
    ensures
        r@ == join_pipe_spec(parts@.map_values(|s: String| s@)),
{
    let ghost views = parts@.map_values(|s: String| s@);
    let mut acc = String::new();
    let mut i: usize = 0;
    while i < parts.len()
        invariant
            i <= parts.len(),
            views == parts@.map_values(|s: String| s@),
            views.len() == parts@.len(),
            acc@ == join_pipe_spec(views.take(i as int)),
        decreases parts.len() - i,
    {
        if i > 0 {
            acc.append("|");
        }
        acc.append(parts[i].as_str());
        proof {
            reveal_strlit("|");
            assert("|"@ =~= seq!['|']);
            assert(views[i as int] == parts@[i as int]@);
            assert(views.take(i + 1).drop_last() =~= views.take(i as int));
            assert(views.take(i + 1).last() == views[i as int]);
            if i == 0 {
                assert(acc@ =~= views.take(1)[0]);
            } else {
                assert(acc@ =~= join_pipe_spec(views.take(i as int)) + seq!['|'] + views[i as int]);
            }
        }
        i = i + 1;
    }
    proof {
        assert(views.take(views.len() as int) =~= views);
    }
    acc
}

/// The character for the hexadecimal digit `d`: `0` to `9`, then `a` to
/// `f`.
pub open spec fn hex_digit_char(d: nat) -> char {
    if d < 10 {
        ((48 + d) as u8) as char
    } else {
        ((87 + d) as u8) as char
    }
}

/// The lowercase hexadecimal notation of `n`, most significant digit
/// first.
pub open spec fn hex_str(n: nat) -> Seq<char>
    decreases n,
{
    if n < 16 {
        seq![hex_digit_char(n)]
    } else {
        hex_str(n / 16).push(hex_digit_char(n % 16))
    }
}

fn hex_digit_str(d: u64) -> (r: &'static str)
    requires
        d < 16,
    ensures
        r@ =~= seq![hex_digit_char(d as nat)],
{
    proof {
        reveal_strlit("0");
        reveal_strlit("1");
        reveal_strlit("2");
        reveal_strlit("3");
        reveal_strlit("4");
        reveal_strlit("5");
        reveal_strlit("6");
        reveal_strlit("7");
        reveal_strlit("8");
        reveal_strlit("9");
        reveal_strlit("a");
        reveal_strlit("b");
        reveal_strlit("c");
        reveal_strlit("d");
        reveal_strlit("e");
        reveal_strlit("f");
    }
    if d == 0 {
        "0"
    } else if d == 1 {
        "1"
    } else if d == 2 {
        "2"
    } else if d == 3 {
        "3"
    } else if d == 4 {
        "4"
    } else if d == 5 {
        "5"
    } else if d == 6 {
        "6"
    } else if d == 7 {
        "7"
    } else if d == 8 {
        "8"
    } else if d == 9 {
        "9"
    } else if d == 10 {
        "a"
    } else if d == 11 {
        "b"
    } else if d == 12 {
        "c"
    } else if d == 13 {
        "d"
    } else if d == 14 {
        "e"
    } else {
        "f"
    }
}

/// Formats `n` in lowercase hexadecimal.
pub fn u64_to_hex(n: u64) -> (r: String)
    ensures
        r@ == hex_str(n as nat),
    decreases n,
{
    if n < 16 {
        hex_digit_str(n).to_owned()
    } else {
        let mut s = u64_to_hex(n / 16);
        s.append(hex_digit_str(n % 16));
        proof {
            assert(s@ =~= hex_str((n / 16) as nat).push(hex_digit_char((n % 16) as nat)));
        }
        s
    }
}

} // verus!
