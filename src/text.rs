use vstd::prelude::*;

verus! {

/// The characters that `char::is_whitespace` accepts (Unicode `White_Space`).
pub open spec fn is_ws(c: char) -> bool {
    c == '\t' || c == '\n' || c == '\u{0B}' || c == '\u{0C}' || c == '\r' || c == ' '
        || c == '\u{85}' || c == '\u{A0}' || c == '\u{1680}' || ('\u{2000}' <= c
        && c <= '\u{200A}') || c == '\u{2028}' || c == '\u{2029}' || c == '\u{202F}'
        || c == '\u{205F}' || c == '\u{3000}'
}

/// The pieces of `s` between occurrences of `sep`, as `str::split` yields them:
/// always at least one, possibly empty.
pub open spec fn segments(s: Seq<char>, sep: char) -> Seq<Seq<char>>
    decreases s.len(),
{
    if s.len() == 0 {
        seq![Seq::<char>::empty()]
    } else {
        let f = segments(s.drop_last(), sep);
        if s.last() == sep {
            f.push(Seq::<char>::empty())
        } else {
            f.update(f.len() - 1, f.last().push(s.last()))
        }
    }
}

/// The maximal runs of non-whitespace characters of `s`, as `str::split_whitespace`
/// yields them.
pub open spec fn fields(s: Seq<char>) -> Seq<Seq<char>>
    decreases s.len(),
{
    if s.len() == 0 {
        Seq::empty()
    } else if is_ws(s.last()) {
        fields(s.drop_last())
    } else {
        let f = fields(s.drop_last());
        if s.len() >= 2 && !is_ws(s[s.len() - 2]) {
            f.update(f.len() - 1, f.last().push(s.last()))
        } else {
            f.push(seq![s.last()])
        }
    }
}

/// The words joined with one `sep` between neighbours.
pub open spec fn join_with(ws: Seq<Seq<char>>, sep: char) -> Seq<char>
    decreases ws.len(),
{
    if ws.len() == 0 {
        Seq::empty()
    } else if ws.len() == 1 {
        ws[0]
    } else {
        join_with(ws.drop_last(), sep) + seq![sep] + ws.last()
    }
}

pub open spec fn is_digit(c: char) -> bool {
    '0' <= c && c <= '9'
}

pub open spec fn all_digits(s: Seq<char>) -> bool {
    forall|i: int| 0 <= i < s.len() ==> is_digit(#[trigger] s[i])
}

/// The number that a string of decimal digits denotes.
pub open spec fn digits_value(s: Seq<char>) -> nat
    decreases s.len(),
{
    if s.len() == 0 {
        0
    } else {
        digits_value(s.drop_last()) * 10 + ((s.last() as int) - ('0' as int)) as nat
    }
}

/// What `str::parse::<u64>` accepts: an optional `+`, then at least one decimal digit,
/// denoting a number that fits in 64 bits.
pub open spec fn parse_u64_spec(s: Seq<char>) -> Option<u64> {
    let d = if s.len() > 0 && s[0] == '+' {
        s.drop_first()
    } else {
        s
    };
    if d.len() > 0 && all_digits(d) && digits_value(d) <= u64::MAX {
        Some(digits_value(d) as u64)
    } else {
        None
    }
}

/// What `str::parse::<i64>` accepts: an optional `+` or `-`, then at least one decimal
/// digit, denoting a number in the range of `i64`.
pub open spec fn parse_i64_spec(s: Seq<char>) -> Option<i64> {
    if s.len() > 0 && s[0] == '-' {
        let d = s.drop_first();
        if d.len() > 0 && all_digits(d) && digits_value(d) <= 0x8000_0000_0000_0000 {
            Some((0 - digits_value(d)) as i64)
        } else {
            None
        }
    } else {
        match parse_u64_spec(s) {
            Some(v) => if v <= i64::MAX {
                Some(v as i64)
            } else {
                None
            },
            None => None,
        }
    }
}

/// `needle` occurs in `hay` at some position.
pub open spec fn contains_at(hay: Seq<char>, needle: Seq<char>, i: int) -> bool {
    0 <= i && i + needle.len() <= hay.len() && hay.subrange(i, i + needle.len()) == needle
}

pub open spec fn contains(hay: Seq<char>, needle: Seq<char>) -> bool {
    exists|i: int| contains_at(hay, needle, i)
}

/// The characters of the string, in order.
pub(crate) fn chars_of(s: &str) -> (r: Vec<char>)
    ensures
        r@ == s@,
{
    broadcast use vstd::string::axiom_spec_iter;

    let mut v: Vec<char> = Vec::new();
    for c in it: s.chars()
        invariant
            it.seq() == s@,
            v@ == it.seq().subrange(0, it.index() as int),
    {
        v.push(c);
        assert(v@ =~= it.seq().subrange(0, it.index() as int + 1));
    }
    assert(v@ =~= s@);
    v
}

/// Relies on `String`'s `FromIterator<char>`: the string made of exactly these characters.
#[verifier::external_body]
pub(crate) fn string_of(cs: &Vec<char>) -> (r: String)
    ensures
        r@ == cs@,
{
    cs.iter().collect()
}

/// Decides `char::is_whitespace` by its list of code points.
pub fn is_whitespace(c: char) -> (r: bool)
    ensures
        r == is_ws(c),
{
    c == '\t' || c == '\n' || c == '\u{0B}' || c == '\u{0C}' || c == '\r' || c == ' '
        || c == '\u{85}' || c == '\u{A0}' || c == '\u{1680}' || ('\u{2000}' <= c
        && c <= '\u{200A}') || c == '\u{2028}' || c == '\u{2029}' || c == '\u{202F}'
        || c == '\u{205F}' || c == '\u{3000}'
}

pub open spec fn views(v: Seq<Vec<char>>) -> Seq<Seq<char>> {
    v.map_values(|w: Vec<char>| w@)
}

/// Splits `s` at every `sep`.
pub fn split_on(s: &Vec<char>, sep: char) -> (r: Vec<Vec<char>>)
    ensures
        views(r@) == segments(s@, sep),
{
    let mut done: Vec<Vec<char>> = Vec::new();
    let mut cur: Vec<char> = Vec::new();
    let mut i: usize = 0;
    while i < s.len()
        invariant
            i <= s.len(),
            views(done@).push(cur@) == segments(s@.subrange(0, i as int), sep),
        decreases s.len() - i,
    {
        let c = s[i];
        proof {
            let t = s@.subrange(0, i as int + 1);
            assert(t.drop_last() == s@.subrange(0, i as int));
            assert(t.last() == c);
        }
        if c == sep {
            let ghost d0 = views(done@);
            let ghost c0 = cur@;
            done.push(cur);
            cur = Vec::new();
            assert(views(done@) =~= d0.push(c0));
        } else {
            cur.push(c);
        }
        i += 1;
        proof {
            assert(views(done@).push(cur@) =~= segments(s@.subrange(0, i as int), sep));
        }
    }
    let ghost d0 = views(done@);
    let ghost c0 = cur@;
    done.push(cur);
    assert(views(done@) =~= d0.push(c0));
    assert(s@.subrange(0, s.len() as int) == s@);
    done
}

/// The whitespace-separated fields of `s`.
pub fn split_fields(s: &Vec<char>) -> (r: Vec<Vec<char>>)
    ensures
        views(r@) == fields(s@),
{
    let mut done: Vec<Vec<char>> = Vec::new();
    let mut cur: Vec<char> = Vec::new();
    let mut i: usize = 0;
    while i < s.len()
        invariant
            i <= s.len(),
            cur@.len() > 0 <==> (i > 0 && !is_ws(s@[i - 1])),
            (if cur@.len() > 0 {
                views(done@).push(cur@)
            } else {
                views(done@)
            }) == fields(s@.subrange(0, i as int)),
        decreases s.len() - i,
    {
        let c = s[i];
        let ghost t = s@.subrange(0, i as int + 1);
        let ghost f0 = fields(s@.subrange(0, i as int));
        proof {
            assert(t.drop_last() == s@.subrange(0, i as int));
            assert(t.last() == c);
            if i > 0 {
                assert(t[t.len() - 2] == s@[i - 1]);
            }
        }
        let ghost d0 = views(done@);
        let ghost c0 = cur@;
        if is_whitespace(c) {
            if cur.len() > 0 {
                let ghost d0 = views(done@);
                let ghost c0 = cur@;
                done.push(cur);
                cur = Vec::new();
                assert(views(done@) =~= d0.push(c0));
            }
        } else {
            cur.push(c);
        }
        i += 1;
        proof {
            if !is_ws(c) {
                if c0.len() > 0 {
                    assert(f0 == d0.push(c0));
                    assert(fields(t) == f0.update(f0.len() - 1, c0.push(c)));
                    assert(views(done@).push(cur@) =~= fields(t));
                } else {
                    assert(f0 == d0);
                    assert(fields(t) == f0.push(seq![c]));
                    assert(cur@ =~= seq![c]);
                    assert(views(done@).push(cur@) =~= fields(t));
                }
            }
        }
    }
    assert(s@.subrange(0, s.len() as int) == s@);
    let ghost d0 = views(done@);
    let ghost c0 = cur@;
    if cur.len() > 0 {
        done.push(cur);
        assert(views(done@) =~= d0.push(c0));
    }
    assert(views(done@) =~= fields(s@));
    done
}

/// The words from `start` on, joined with one `sep` between neighbours.
pub fn join_from(ws: &Vec<Vec<char>>, start: usize, sep: char) -> (r: Vec<char>)
    requires
        start <= ws.len(),
    ensures
        r@ == join_with(views(ws@).subrange(start as int, ws.len() as int), sep),
{
    let mut out: Vec<char> = Vec::new();
    let mut i: usize = start;
    while i < ws.len()
        invariant
            start <= i <= ws.len(),
            out@ == join_with(views(ws@).subrange(start as int, i as int), sep),
        decreases ws.len() - i,
    {
        let ghost before = out@;
        if i > start {
            out.push(sep);
        }
        let w = &ws[i];
        let mut k: usize = 0;
        while k < w.len()
            invariant
                k <= w.len(),
                i < ws.len(),
                w == ws@[i as int],
                out@ == (if i > start {
                    before + seq![sep]
                } else {
                    before
                }) + w@.subrange(0, k as int),
            decreases w.len() - k,
        {
            out.push(w[k]);
            k += 1;
            proof {
                assert(w@.subrange(0, k as int) == w@.subrange(0, k - 1).push(w@[k - 1]));
            }
        }
        i += 1;
        proof {
            let p = views(ws@).subrange(start as int, i as int);
            assert(p.drop_last() == views(ws@).subrange(start as int, i - 1));
            assert(p.last() == w@);
            assert(w@.subrange(0, w@.len() as int) == w@);
            if i - 1 == start {
                assert(before.len() == 0);
                assert(out@ =~= join_with(p, sep));
            } else {
                assert(out@ =~= join_with(p, sep));
            }
        }
    }
    out
}

proof fn lemma_digits_prefix_le(s: Seq<char>, i: int)
    requires
        0 <= i <= s.len(),
        all_digits(s),
    ensures
        digits_value(s.subrange(0, i)) <= digits_value(s),
    decreases s.len() - i,
{
    if i < s.len() {
        lemma_digits_prefix_le(s, i + 1);
        let t = s.subrange(0, i + 1);
        assert(t.drop_last() == s.subrange(0, i));
        assert(is_digit(s[i]));
    } else {
        assert(s.subrange(0, i) == s);
    }
}

/// Once a prefix of the digits exceeds 64 bits, the whole string is rejected.
proof fn lemma_overflow_rejects(s: Seq<char>, d: Seq<char>, start: int, i: int)
    requires
        0 <= start <= i < s.len(),
        d == s.subrange(start, s.len() as int),
        is_digit(s[i]),
        digits_value(s.subrange(start, i + 1)) > u64::MAX,
    ensures
        !(all_digits(d) && digits_value(d) <= u64::MAX),
{
    if all_digits(d) {
        lemma_digits_prefix_le(d, i + 1 - start);
        assert(d.subrange(0, i + 1 - start) == s.subrange(start, i + 1));
    }
}

/// Reads a `u64` written in decimal, as `str::parse::<u64>` does.
pub fn parse_u64(s: &Vec<char>) -> (r: Option<u64>)
    ensures
        r == parse_u64_spec(s@),
{
    let start: usize = if s.len() > 0 && s[0] == '+' {
        1
    } else {
        0
    };
    let ghost d = if s@.len() > 0 && s@[0] == '+' {
        s@.drop_first()
    } else {
        s@
    };
    assert(d == s@.subrange(start as int, s.len() as int));
    assert(parse_u64_spec(s@) == (if d.len() > 0 && all_digits(d) && digits_value(d) <= u64::MAX {
        Some(digits_value(d) as u64)
    } else {
        None
    }));
    if start >= s.len() {
        return None;
    }
    let mut v: u64 = 0;
    let mut i: usize = start;
    while i < s.len()
        invariant
            start <= i <= s.len(),
            d == s@.subrange(start as int, s.len() as int),
            d.len() > 0,
            parse_u64_spec(s@) == (if all_digits(d) && digits_value(d) <= u64::MAX {
                Some(digits_value(d) as u64)
            } else {
                None
            }),
            all_digits(s@.subrange(start as int, i as int)),
            v as nat == digits_value(s@.subrange(start as int, i as int)),
        decreases s.len() - i,
    {
        let c = s[i];
        let ghost t = s@.subrange(start as int, i as int + 1);
        proof {
            assert(t.drop_last() == s@.subrange(start as int, i as int));
            assert(t.last() == c);
        }
        if !('0' <= c && c <= '9') {
            assert(d[i - start] == c);
            assert(!is_digit(d[i - start]));
            assert(!all_digits(d));
            return None;
        }
        let dig: u64 = (c as u32 - '0' as u32) as u64;
        assert(dig as int == (c as int) - ('0' as int));
        assert(digits_value(t) == v * 10 + dig);
        let m = v.checked_mul(10);
        match m {
            None => {
                proof {
                    lemma_overflow_rejects(s@, d, start as int, i as int);
                }
                return None;
            },
            Some(m) => {
                let a = m.checked_add(dig);
                match a {
                    None => {
                        proof {
                            lemma_overflow_rejects(s@, d, start as int, i as int);
                        }
                        return None;
                    },
                    Some(a) => {
                        v = a;
                    },
                }
            },
        }
        i += 1;
        assert(all_digits(s@.subrange(start as int, i as int))) by {
            assert forall|k: int| 0 <= k < t.len() implies is_digit(#[trigger] t[k]) by {
                if k < t.len() - 1 {
                    assert(t[k] == t.drop_last()[k]);
                }
            }
        }
    }
    assert(s@.subrange(start as int, s.len() as int) == d);
    Some(v)
}

/// `s` without its first character.
fn tail_of(s: &Vec<char>) -> (r: Vec<char>)
    requires
        s.len() > 0,
    ensures
        r@ == s@.drop_first(),
{
    let mut out: Vec<char> = Vec::new();
    let mut i: usize = 1;
    while i < s.len()
        invariant
            1 <= i <= s.len(),
            out@ == s@.subrange(1, i as int),
        decreases s.len() - i,
    {
        out.push(s[i]);
        i += 1;
        assert(out@ =~= s@.subrange(1, i as int));
    }
    assert(out@ =~= s@.drop_first());
    out
}

/// Reads an `i64` written in decimal, as `str::parse::<i64>` does.
pub fn parse_i64(s: &Vec<char>) -> (r: Option<i64>)
    ensures
        r == parse_i64_spec(s@),
{
    if s.len() > 0 && s[0] == '-' {
        let d = tail_of(s);
        if d.len() == 0 || d[0] == '+' {
            proof {
                if d.len() > 0 {
                    assert(!is_digit(d@[0]));
                }
            }
            return None;
        }
        assert(d@.len() > 0 && d@[0] != '+');
        match parse_u64(&d) {
            None => {
                None
            },
            Some(v) => {
                if v <= 0x8000_0000_0000_0000u64 {
                    if v == 0x8000_0000_0000_0000u64 {
                        Some(i64::MIN)
                    } else {
                        Some(0i64 - (v as i64))
                    }
                } else {
                    None
                }
            },
        }
    } else {
        match parse_u64(s) {
            Some(v) => if v <= 0x7FFF_FFFF_FFFF_FFFFu64 {
                Some(v as i64)
            } else {
                None
            },
            None => None,
        }
    }
}

/// Whether `needle` occurs in `hay` at position `i`.
fn matches_at(hay: &Vec<char>, needle: &Vec<char>, i: usize) -> (r: bool)
    requires
        i <= hay.len(),
        needle.len() <= hay.len() - i,
    ensures
        r == contains_at(hay@, needle@, i as int),
{
    let mut k: usize = 0;
    while k < needle.len()
        invariant
            i + needle.len() <= hay.len(),
            k <= needle.len(),
            forall|m: int| 0 <= m < k ==> hay@[i + m] == needle@[m],
        decreases needle.len() - k,
    {
        if hay[i + k] != needle[k] {
            assert(hay@.subrange(i as int, i + needle.len())[k as int] != needle@[k as int]);
            return false;
        }
        k += 1;
    }
    assert(hay@.subrange(i as int, i + needle.len()) =~= needle@);
    true
}

/// Whether `needle` occurs in `hay`.
pub fn has_substring(hay: &Vec<char>, needle: &Vec<char>) -> (r: bool)
    ensures
        r == contains(hay@, needle@),
{
    if needle.len() > hay.len() {
        return false;
    }
    let last = hay.len() - needle.len();
    let mut i: usize = 0;
    while i < last
        invariant
            needle.len() <= hay.len(),
            last == hay.len() - needle.len(),
            i <= last,
            forall|j: int| 0 <= j < i ==> !contains_at(hay@, needle@, j),
        decreases last - i,
    {
        if matches_at(hay, needle, i) {
            return true;
        }
        i += 1;
    }
    if matches_at(hay, needle, last) {
        return true;
    }
    assert forall|j: int| !contains_at(hay@, needle@, j) by {
        if 0 <= j && j + needle.len() <= hay.len() {
            assert(j <= last);
        }
    }
    false
}

} // verus!
