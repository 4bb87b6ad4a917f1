//! Decimal numbers, file names and paths as text.
use vstd::prelude::*;

verus! {

/// The character of a decimal digit.
pub open spec fn digit_char(d: int) -> char {
    if d == 0 {
        '0'
    } else if d == 1 {
        '1'
    } else if d == 2 {
        '2'
    } else if d == 3 {
        '3'
    } else if d == 4 {
        '4'
    } else if d == 5 {
        '5'
    } else if d == 6 {
        '6'
    } else if d == 7 {
        '7'
    } else if d == 8 {
        '8'
    } else {
        '9'
    }
}

/// The value of a decimal digit character, if it is one.
pub open spec fn digit_value(c: char) -> Option<int> {
    if '0' <= c && c <= '9' {
        Some(c as int - '0' as int)
    } else {
        None
    }
}

/// The decimal representation of `n`, without leading zeros.
pub open spec fn decimal(n: nat) -> Seq<char>
    decreases n,
{
    if n < 10 {
        seq![digit_char(n as int)]
    } else {
        decimal(n / 10).push(digit_char((n % 10) as int))
    }
}

/// Appends a decimal digit.
fn push_digit(s: &mut String, d: u64)
    requires
        d < 10,
    ensures
        final(s)@ == old(s)@.push(digit_char(d as int)),
{
    if d == 0 {
        proof {
            reveal_strlit("0");
        }
        s.append("0");
    } else if d == 1 {
        proof {
            reveal_strlit("1");
        }
        s.append("1");
    } else if d == 2 {
        proof {
            reveal_strlit("2");
        }
        s.append("2");
    } else if d == 3 {
        proof {
            reveal_strlit("3");
        }
        s.append("3");
    } else if d == 4 {
        proof {
            reveal_strlit("4");
        }
        s.append("4");
    } else if d == 5 {
        proof {
            reveal_strlit("5");
        }
        s.append("5");
    } else if d == 6 {
        proof {
            reveal_strlit("6");
        }
        s.append("6");
    } else if d == 7 {
        proof {
            reveal_strlit("7");
        }
        s.append("7");
    } else if d == 8 {
        proof {
            reveal_strlit("8");
        }
        s.append("8");
    } else {
        proof {
            reveal_strlit("9");
        }
        s.append("9");
    }
}

/// Appends the decimal representation of `v`.
pub fn push_decimal(s: &mut String, v: u64)
    ensures
        final(s)@ == old(s)@ + decimal(v as nat),
    decreases v,
{
    if v >= 10 {
        push_decimal(s, v / 10);
    }
    let ghost mid = s@;
    push_digit(s, v % 10);
    proof {
        if v >= 10 {
            assert(decimal(v as nat) == decimal((v / 10) as nat).push(digit_char((v % 10) as int)));
        } else {
            assert(decimal(v as nat) == seq![digit_char(v as int)]);
        }
    }
}

/// Appends one character given as a one-character literal.
fn push_underscore(s: &mut String)
    ensures
        final(s)@ == old(s)@.push('_'),
{
    proof {
        reveal_strlit("_");
    }
    s.append("_");
}

/// The path of `name` inside the directory `dir`: joined with a `/` unless
/// the directory is empty or already ends with one.
pub open spec fn join_path(dir: Seq<char>, name: Seq<char>) -> Seq<char> {
    if dir.len() == 0 {
        name
    } else if dir.last() == '/' {
        dir + name
    } else {
        dir.push('/') + name
    }
}

/// The path of `name` inside the directory `dir`.
pub fn join(dir: &String, name: &String) -> (p: String)
    ensures
        p@ == join_path(dir@, name@),
{
    let mut p = dir.clone();
    let len = dir.as_str().unicode_len();
    if len > 0 && dir.as_str().get_char(len - 1) != '/' {
        proof {
            reveal_strlit("/");
        }
        p.append("/");
    }
    p.append(name.as_str());
    p
}

/// The text of the three numbers joined by underscores.
pub open spec fn triple_name(a: nat, b: nat, c: nat) -> Seq<char> {
    decimal(a) + seq!['_'] + decimal(b) + seq!['_'] + decimal(c)
}

/// `a_b_c` with the numbers in decimal.
pub fn format_triple(a: u64, b: u64, c: u8) -> (s: String)
    ensures
        s@ == triple_name(a as nat, b as nat, c as nat),
{
    let mut s = String::new();
    push_decimal(&mut s, a);
    push_underscore(&mut s);
    push_decimal(&mut s, b);
    push_underscore(&mut s);
    push_decimal(&mut s, c as u64);
    s
}

/// The pieces of `s` between underscores, as `str::split('_')` yields them.
pub open spec fn split_underscore(s: Seq<char>) -> Seq<Seq<char>>
    decreases s.len(),
{
    if s.len() == 0 {
        seq![Seq::empty()]
    } else {
        let rest = split_underscore(s.drop_last());
        if s.last() == '_' {
            rest.push(Seq::empty())
        } else {
            rest.update(rest.len() - 1, rest.last().push(s.last()))
        }
    }
}

/// The value of a sequence of decimal digits.
pub open spec fn digits_value(s: Seq<char>) -> Option<nat>
    decreases s.len(),
{
    if s.len() == 0 {
        Some(0)
    } else {
        match (digits_value(s.drop_last()), digit_value(s.last())) {
            (Some(v), Some(d)) => Some(v * 10 + d as nat),
            _ => None,
        }
    }
}

/// The number that `str::parse` reads from `s`: an optional `+`, then at
/// least one decimal digit.
pub open spec fn parse_natural(s: Seq<char>) -> Option<nat> {
    let digits = if s.len() > 0 && s[0] == '+' {
        s.drop_first()
    } else {
        s
    };
    if digits.len() == 0 {
        None
    } else {
        digits_value(digits)
    }
}

/// The number that `s` stands for, if it fits below `bound`.
pub open spec fn parse_bounded(s: Seq<char>, bound: nat) -> Option<nat> {
    match parse_natural(s) {
        Some(v) => if v < bound {
            Some(v)
        } else {
            None
        },
        None => None,
    }
}

/// What the name of a file in the storage directory says.
pub enum FileNameKind {
    /// The name does not have three parts separated by underscores.
    Other,
    /// `sector_timestamp_writerank`.
    Sector { idx: u64, ts: u64, wr: u8 },
    /// Three parts, but one of them is not a number of its type.
    Unparsable,
}

/// What the name of a file in the storage directory says.
pub open spec fn classify_file_name(name: Seq<char>) -> FileNameKind {
    let parts = split_underscore(name);
    if parts.len() != 3 {
        FileNameKind::Other
    } else {
        match (
            parse_bounded(parts[0], 0x1_0000_0000_0000_0000),
            parse_bounded(parts[1], 0x1_0000_0000_0000_0000),
            parse_bounded(parts[2], 0x100),
        ) {
            (Some(a), Some(b), Some(c)) => FileNameKind::Sector {
                idx: a as u64,
                ts: b as u64,
                wr: c as u8,
            },
            _ => FileNameKind::Unparsable,
        }
    }
}

/// Reads a number below or equal to `max` from `part`, as `str::parse`
/// does.
fn parse_part(part: &Vec<char>, max: u64) -> (r: Option<u64>)
    ensures
        match r {
            Some(v) => parse_bounded(part@, max as nat + 1) == Some(v as nat),
            None => parse_bounded(part@, max as nat + 1) is None,
        },
{
    let len = part.len();
    let start: usize = if len > 0 && part[0] == '+' {
        1
    } else {
        0
    };
    let ghost digits = part@.subrange(start as int, len as int);
    proof {
        if len > 0 && part@[0] == '+' {
            assert(digits =~= part@.drop_first());
        } else {
            assert(digits =~= part@);
        }
    }
    if start == len {
        return None;
    }
    let bound: u128 = max as u128 + 1;
    let mut acc: u128 = 0;
    let mut bad = false;
    let mut i = start;
    while i < len
        invariant
            start <= i <= len,
            len == part@.len(),
            bound == max + 1,
            digits == part@.subrange(start as int, len as int),
            acc <= bound,
            bad <==> digits_value(part@.subrange(start as int, i as int)) is None,
            !bad ==> acc == (if digits_value(part@.subrange(start as int, i as int))->0 < bound {
                digits_value(part@.subrange(start as int, i as int))->0
            } else {
                bound as nat
            }),
        decreases len - i,
    {
        let c = part[i];
        let ghost prefix = part@.subrange(start as int, i as int);
        let ghost next = part@.subrange(start as int, i + 1);
        assert(next.drop_last() == prefix);
        assert(next.last() == c);
        if '0' <= c && c <= '9' {
            let d = (c as u32 - '0' as u32) as u128;
            if !bad && acc < bound {
                acc = acc * 10 + d;
                if acc > bound {
                    acc = bound;
                }
            }
        } else {
            bad = true;
        }
        i = i + 1;
    }
    assert(part@.subrange(start as int, len as int) == digits);
    if bad || acc >= bound {
        None
    } else {
        Some(acc as u64)
    }
}

/// What the name of a file in the storage directory says.
pub fn classify(name: &str) -> (k: FileNameKind)
    ensures
        k == classify_file_name(name@),
{
    let len = name.unicode_len();
    let mut count: usize = 1;
    let mut p0: Vec<char> = Vec::new();
    let mut p1: Vec<char> = Vec::new();
    let mut p2: Vec<char> = Vec::new();
    let mut i: usize = 0;
    while i < len
        invariant
            i <= len,
            len == name@.len(),
            1 <= count <= 4,
            count < 4 ==> count == split_underscore(name@.subrange(0, i as int)).len(),
            count == 4 ==> split_underscore(name@.subrange(0, i as int)).len() >= 4,
            p0@ == split_underscore(name@.subrange(0, i as int))[0],
            count >= 2 ==> p1@ == split_underscore(name@.subrange(0, i as int))[1],
            count >= 3 ==> p2@ == split_underscore(name@.subrange(0, i as int))[2],
            count < 2 ==> p1@.len() == 0,
            count < 3 ==> p2@.len() == 0,
        decreases len - i,
    {
        let c = name.get_char(i);
        let ghost prefix = name@.subrange(0, i as int);
        let ghost next = name@.subrange(0, i + 1);
        assert(next.drop_last() == prefix);
        assert(next.last() == c);
        if c == '_' {
            if count < 4 {
                count = count + 1;
            }
        } else if count == 1 {
            p0.push(c);
        } else if count == 2 {
            p1.push(c);
        } else if count == 3 {
            p2.push(c);
        }
        i = i + 1;
    }
    assert(name@.subrange(0, len as int) == name@);
    if count != 3 {
        return FileNameKind::Other;
    }
    let a = parse_part(&p0, u64::MAX);
    let b = parse_part(&p1, u64::MAX);
    let c = parse_part(&p2, 255);
    match (a, b, c) {
        (Some(idx), Some(ts), Some(wr)) => FileNameKind::Sector { idx, ts, wr: wr as u8 },
        _ => FileNameKind::Unparsable,
    }
}

/// The lowercase hexadecimal digit of `d`.
pub open spec fn hex_char(d: int) -> char {
    if d < 10 {
        digit_char(d)
    } else if d == 10 {
        'a'
    } else if d == 11 {
        'b'
    } else if d == 12 {
        'c'
    } else if d == 13 {
        'd'
    } else if d == 14 {
        'e'
    } else {
        'f'
    }
}

/// Each byte as two lowercase hexadecimal digits, high digit first.
pub open spec fn hex_string(bytes: Seq<u8>) -> Seq<char>
    decreases bytes.len(),
{
    if bytes.len() == 0 {
        Seq::empty()
    } else {
        hex_string(bytes.drop_last()).push(hex_char((bytes.last() / 16) as int)).push(
            hex_char((bytes.last() % 16) as int),
        )
    }
}

/// Two digits per byte.
pub proof fn lemma_hex_string_len(bytes: Seq<u8>)
    ensures
        hex_string(bytes).len() == 2 * bytes.len(),
    decreases bytes.len(),
{
    if bytes.len() > 0 {
        lemma_hex_string_len(bytes.drop_last());
    }
}

/// Appends a lowercase hexadecimal digit.
fn push_hex_digit(s: &mut String, d: u8)
    requires
        d < 16,
    ensures
        final(s)@ == old(s)@.push(hex_char(d as int)),
{
    if d < 10 {
        push_digit(s, d as u64);
    } else if d == 10 {
        proof {
            reveal_strlit("a");
        }
        s.append("a");
    } else if d == 11 {
        proof {
            reveal_strlit("b");
        }
        s.append("b");
    } else if d == 12 {
        proof {
            reveal_strlit("c");
        }
        s.append("c");
    } else if d == 13 {
        proof {
            reveal_strlit("d");
        }
        s.append("d");
    } else if d == 14 {
        proof {
            reveal_strlit("e");
        }
        s.append("e");
    } else {
        proof {
            reveal_strlit("f");
        }
        s.append("f");
    }
}

/// The bytes as lowercase hexadecimal text, two digits per byte.
pub fn to_hex(bytes: &[u8]) -> (s: String)
    ensures
        s@ == hex_string(bytes@),
        s@.len() == 2 * bytes@.len(),
{
    proof {
        lemma_hex_string_len(bytes@);
    }
    let mut s = String::new();
    let mut i: usize = 0;
    while i < bytes.len()
        invariant
            i <= bytes@.len(),
            s@ == hex_string(bytes@.subrange(0, i as int)),
        decreases bytes@.len() - i,
    {
        let b = bytes[i];
        push_hex_digit(&mut s, b / 16);
        push_hex_digit(&mut s, b % 16);
        let ghost next = bytes@.subrange(0, i + 1);
        assert(next.drop_last() == bytes@.subrange(0, i as int));
        assert(next.last() == b);
        i = i + 1;
    }
    assert(bytes@.subrange(0, bytes@.len() as int) == bytes@);
    s
}

// ---------------------------------------------------------------------
// Names of sector files read back.
// ---------------------------------------------------------------------

proof fn lemma_split_nonempty(s: Seq<char>)
    ensures
        split_underscore(s).len() >= 1,
    decreases s.len(),
{
    if s.len() > 0 {
        lemma_split_nonempty(s.drop_last());
    }
}

/// Splitting at an underscore splits the two sides apart.
proof fn lemma_split_concat(s: Seq<char>, t: Seq<char>)
    ensures
        split_underscore(s + seq!['_'] + t) == split_underscore(s) + split_underscore(t),
    decreases t.len(),
{
    let u = s + seq!['_'] + t;
    if t.len() == 0 {
        assert(u.drop_last() == s);
        assert(split_underscore(t) == seq![Seq::<char>::empty()]);
        assert(split_underscore(u) =~= split_underscore(s) + split_underscore(t));
    } else {
        let t1 = t.drop_last();
        lemma_split_concat(s, t1);
        lemma_split_nonempty(t1);
        lemma_split_nonempty(s);
        assert(u.drop_last() == s + seq!['_'] + t1);
        assert(u.last() == t.last());
        let a = split_underscore(s);
        let b = split_underscore(t1);
        if t.last() == '_' {
            assert(split_underscore(u) =~= a + b.push(Seq::empty()));
        } else {
            assert((a + b).update((a + b).len() - 1, (a + b).last().push(t.last())) =~= a + b.update(
                b.len() - 1,
                b.last().push(t.last()),
            ));
        }
    }
}

proof fn lemma_digit_char(d: int)
    requires
        0 <= d < 10,
    ensures
        digit_value(digit_char(d)) == Some(d),
        digit_char(d) != '_',
        digit_char(d) != '+',
{
}

/// The decimal text of a number is made of digits and reads back as it.
proof fn lemma_decimal_reads_back(n: nat)
    ensures
        decimal(n).len() >= 1,
        digits_value(decimal(n)) == Some(n),
        forall|i: int| 0 <= i < decimal(n).len() ==> #[trigger] decimal(n)[i] != '_' && decimal(
            n,
        )[i] != '+',
        split_underscore(decimal(n)) == seq![decimal(n)],
    decreases n,
{
    if n < 10 {
        lemma_digit_char(n as int);
        let d = decimal(n);
        let e = Seq::<char>::empty();
        assert(d.drop_last() =~= e);
        assert(digits_value(e) == Some(0nat));
        assert(split_underscore(e) == seq![e]);
        assert(d.last() == digit_char(n as int));
        assert(digits_value(d) == Some(n));
        assert(seq![e].update(0, e.push(d.last())) =~= seq![d]);
        assert(split_underscore(d) =~= seq![d]);
    } else {
        lemma_decimal_reads_back(n / 10);
        lemma_digit_char((n % 10) as int);
        let d = decimal(n);
        assert(d.drop_last() == decimal(n / 10));
        assert((n / 10) * 10 + n % 10 == n) by (nonlinear_arith);
        assert(split_underscore(d) =~= seq![d]);
    }
}

/// The name given to a sector file reads back as its sector, timestamp and
/// write rank.
pub proof fn lemma_triple_name_reads_back(a: u64, b: u64, c: u8)
    ensures
        classify_file_name(triple_name(a as nat, b as nat, c as nat)) == (FileNameKind::Sector {
            idx: a,
            ts: b,
            wr: c,
        }),
{
    let da = decimal(a as nat);
    let db = decimal(b as nat);
    let dc = decimal(c as nat);
    lemma_decimal_reads_back(a as nat);
    lemma_decimal_reads_back(b as nat);
    lemma_decimal_reads_back(c as nat);
    lemma_split_concat(da, db);
    lemma_split_concat(da + seq!['_'] + db, dc);
    let parts = split_underscore(triple_name(a as nat, b as nat, c as nat));
    assert(parts =~= seq![da, db, dc]);
    assert(parse_natural(da) == Some(a as nat));
    assert(parse_natural(db) == Some(b as nat));
    assert(parse_natural(dc) == Some(c as nat));
}

/// The name `tmp_` followed by a sector file's name has four parts: it
/// names no sector file.
pub proof fn lemma_temp_name_is_other(a: u64, b: u64, c: u8)
    ensures
        classify_file_name("tmp_"@ + triple_name(a as nat, b as nat, c as nat)) == FileNameKind::Other,
{
    reveal_strlit("tmp_");
    let t = triple_name(a as nat, b as nat, c as nat);
    let tmp = seq!['t', 'm', 'p'];
    assert("tmp_"@ + t =~= tmp + seq!['_'] + t);
    lemma_split_concat(tmp, t);
    let t0 = Seq::<char>::empty();
    let t1 = seq!['t'];
    let t2 = seq!['t', 'm'];
    assert(t1.drop_last() =~= t0);
    assert(t2.drop_last() =~= t1);
    assert(tmp.drop_last() =~= t2);
    assert(split_underscore(t0).len() == 1);
    assert(split_underscore(t1).len() == 1);
    assert(split_underscore(t2).len() == 1);
    assert(split_underscore(tmp).len() == 1);
    let da = decimal(a as nat);
    let db = decimal(b as nat);
    let dc = decimal(c as nat);
    lemma_decimal_reads_back(a as nat);
    lemma_decimal_reads_back(b as nat);
    lemma_decimal_reads_back(c as nat);
    lemma_split_concat(da, db);
    lemma_split_concat(da + seq!['_'] + db, dc);
    assert(split_underscore(t).len() == 3);
}

/// Different sectors, timestamps or write ranks give different names.
pub proof fn lemma_triple_name_injective(a: u64, b: u64, c: u8, x: u64, y: u64, z: u8)
    requires
        triple_name(a as nat, b as nat, c as nat) == triple_name(x as nat, y as nat, z as nat),
    ensures
        a == x && b == y && c == z,
{
    lemma_triple_name_reads_back(a, b, c);
    lemma_triple_name_reads_back(x, y, z);
}

} // verus!
