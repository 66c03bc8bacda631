//! Small verified helpers shared across the engine.

use vstd::prelude::*;

verus! {

/// Byte-for-byte equality of two slices.
pub fn bytes_eq(a: &[u8], b: &[u8]) -> (r: bool)
    ensures
        r == (a@ == b@),
{
    if a.len() != b.len() {
        return false;
    }
    let n = a.len();
    let mut i: usize = 0;
    while i < n
        invariant
            n == a@.len() == b@.len(),
            i <= n,
            forall|j: int| 0 <= j < i ==> a@[j] == b@[j],
        decreases n - i,
    {
        if a[i] != b[i] {
            return false;
        }
        i = i + 1;
    }
    proof {
        assert(a@ =~= b@);
    }
    true
}

/// Whether `v` holds `x`.
pub fn contains_u32(v: &[u32], x: u32) -> (r: bool)
    ensures
        r == v@.contains(x),
{
    let n = v.len();
    let mut i: usize = 0;
    while i < n
        invariant
            n == v@.len(),
            i <= n,
            forall|j: int| 0 <= j < i ==> v@[j] != x,
        decreases n - i,
    {
        if v[i] == x {
            proof {
                assert(v@[i as int] == x);
            }
            return true;
        }
        i = i + 1;
    }
    proof {
        if v@.contains(x) {
            let j = choose|j: int| 0 <= j < v@.len() && v@[j] == x;
            assert(false);
        }
    }
    false
}

/// Insert `x` into an ascending list of distinct values, keeping it
/// ascending; a value already present is left alone.
pub fn insert_sorted(v: &mut Vec<u32>, x: u32)
    requires
        forall|i: int, j: int| 0 <= i < j < old(v)@.len() ==> old(v)@[i] < old(v)@[j],
    ensures
        forall|i: int, j: int| 0 <= i < j < final(v)@.len() ==> final(v)@[i] < final(v)@[j],
        forall|y: u32| #[trigger] final(v)@.contains(y) <==> (old(v)@.contains(y) || y == x),
{
    let n = v.len();
    let mut i: usize = 0;
    while i < n && v[i] < x
        invariant
            n == v@.len(),
            i <= n,
            *v == *old(v),
            forall|j: int| 0 <= j < i ==> v@[j] < x,
        decreases n - i,
    {
        i = i + 1;
    }
    if i < n && v[i] == x {
        proof {
            assert(v@[i as int] == x);
            assert forall|y: u32| #[trigger] v@.contains(y) <==> (old(v)@.contains(y) || y
                == x) by {}
        }
        return;
    }
    let ghost pre = v@;
    v.insert(i, x);
    proof {
        assert(forall|j: int| 0 <= j < i ==> v@[j] == pre[j]);
        assert(forall|j: int| i < j < v@.len() ==> v@[j] == pre[j - 1]);
        assert(v@[i as int] == x);
        assert forall|a: int, b: int| 0 <= a < b < v@.len() implies v@[a] < v@[b] by {
            if a < i && b > i {
                assert(pre[a] < x || a == i);
            }
            if a == i && b > i {
                assert(pre[b - 1] >= x);
                assert(pre[b - 1] != x);
            }
        }
        assert forall|y: u32| #[trigger] v@.contains(y) <==> (pre.contains(y) || y == x) by {
            if v@.contains(y) {
                let j = choose|j: int| 0 <= j < v@.len() && v@[j] == y;
                if j < i {
                    assert(pre[j] == y);
                } else if j > i {
                    assert(pre[j - 1] == y);
                }
            }
            if pre.contains(y) {
                let j = choose|j: int| 0 <= j < pre.len() && pre[j] == y;
                if j < i {
                    assert(v@[j] == y);
                } else {
                    assert(v@[j + 1] == y);
                }
            }
            assert(v@[i as int] == x);
        }
    }
}

/// The character of one decimal digit.
pub open spec fn spec_digit_char(d: int) -> char {
    if d == 0 {
        '0'
    } else if d == 1 {
        '1'
    } else if d == 2 {
        '2'
    } else if d == 3 {
        '3'
    } else if d == 4 {
        '4'
    } else if d == 5 {
        '5'
    } else if d == 6 {
        '6'
    } else if d == 7 {
        '7'
    } else if d == 8 {
        '8'
    } else {
        '9'
    }
}

/// The decimal digits of a number, most significant first.
pub open spec fn spec_dec_digits(n: int) -> Seq<char>
    decreases n,
{
    if n < 10 {
        seq![spec_digit_char(n)]
    } else {
        spec_dec_digits(n / 10) + seq![spec_digit_char(n % 10)]
    }
}

/// One decimal digit as a string.
fn digit_str(d: u64) -> (r: String)
    requires
        d < 10,
    ensures
        r@ == seq![spec_digit_char(d as int)],
{
    proof {
        reveal_strlit("0");
        reveal_strlit("1");
        reveal_strlit("2");
        reveal_strlit("3");
        reveal_strlit("4");
        reveal_strlit("5");
        reveal_strlit("6");
        reveal_strlit("7");
        reveal_strlit("8");
        reveal_strlit("9");
    }
    let s: &str = if d == 0 {
        "0"
    } else if d == 1 {
        "1"
    } else if d == 2 {
        "2"
    } else if d == 3 {
        "3"
    } else if d == 4 {
        "4"
    } else if d == 5 {
        "5"
    } else if d == 6 {
        "6"
    } else if d == 7 {
        "7"
    } else if d == 8 {
        "8"
    } else {
        "9"
    };
    proof {
        assert(s@ =~= seq![spec_digit_char(d as int)]);
    }
    s.to_owned()
}

/// A number in decimal.
pub fn format_u64(n: u64) -> (r: String)
    ensures
        r@ == spec_dec_digits(n as int),
    decreases n,
{
    if n < 10 {
        digit_str(n)
    } else {
        let mut s = format_u64(n / 10);
        let d = digit_str(n % 10);
        s.append(d.as_str());
        proof {
            assert(s@ =~= spec_dec_digits(n as int));
        }
        s
    }
}

/// How many decimal digits a number prints with.
pub proof fn lemma_dec_digits_len(n: int)
    requires
        0 <= n,
    ensures
        spec_dec_digits(n).len() == if n < 10 {
            1int
        } else if n < 100 {
            2int
        } else if n < 1000 {
            3int
        } else if n < 10000 {
            4int
        } else if n < 100000 {
            5int
        } else if n < 1000000 {
            6int
        } else if n < 10000000 {
            7int
        } else if n < 100000000 {
            8int
        } else if n < 1000000000 {
            9int
        } else if n < 10000000000 {
            10int
        } else {
            spec_dec_digits(n).len() as int
        },
        n >= 10000000000 ==> spec_dec_digits(n).len() >= 11,
    decreases n,
{
    if n >= 10 {
        lemma_dec_digits_len(n / 10);
    }
}

/// A file id as a zero-padded, ten-digit decimal stem.
pub open spec fn spec_file_stem(id: u32) -> Seq<char> {
    let d = spec_dec_digits(id as int);
    seq!['0', '0', '0', '0', '0', '0', '0', '0', '0', '0'].take(10 - d.len()) + d
}

/// Format a file id as its zero-padded stem.
pub fn format_file_id(id: u32) -> (r: String)
    ensures
        r@ == spec_file_stem(id),
        r@.len() == 10,
{
    let digits = format_u64(id as u64);
    let count: usize = if id < 10 {
        1
    } else if id < 100 {
        2
    } else if id < 1000 {
        3
    } else if id < 10000 {
        4
    } else if id < 100000 {
        5
    } else if id < 1000000 {
        6
    } else if id < 10000000 {
        7
    } else if id < 100000000 {
        8
    } else if id < 1000000000 {
        9
    } else {
        10
    };
    proof {
        lemma_dec_digits_len(id as int);
        reveal_strlit("0");
    }
    let mut s = String::new();
    let mut k: usize = 0;
    while k < 10 - count
        invariant
            count == spec_dec_digits(id as int).len(),
            count <= 10,
            k <= 10 - count,
            s@ =~= seq!['0', '0', '0', '0', '0', '0', '0', '0', '0', '0'].take(k as int),
        decreases 10 - count - k,
    {
        s.append("0");
        proof {
            reveal_strlit("0");
            assert(s@ =~= seq!['0', '0', '0', '0', '0', '0', '0', '0', '0', '0'].take(
                k + 1,
            ));
        }
        k = k + 1;
    }
    s.append(digits.as_str());
    proof {
        assert(s@ =~= spec_file_stem(id));
    }
    s
}

/// The path of the data file with this id, under `path`.
pub fn get_data_file_path(path: &str, file_id: u32) -> (r: String)
    ensures
        r@ == path@ + seq!['/'] + spec_file_stem(file_id) + ".crabe.sst"@,
{
    let mut s = path.to_owned();
    s.append("/");
    let stem = format_file_id(file_id);
    s.append(stem.as_str());
    s.append(".crabe.sst");
    proof {
        reveal_strlit("/");
        assert(s@ =~= path@ + seq!['/'] + spec_file_stem(file_id) + ".crabe.sst"@);
    }
    s
}

/// The path of the hint file with this id, under `path`.
pub fn get_compaction_hint_file_path(path: &str, file_id: u32) -> (r: String)
    ensures
        r@ == path@ + seq!['/'] + spec_file_stem(file_id) + ".crabe.cpct"@,
{
    let mut s = path.to_owned();
    s.append("/");
    let stem = format_file_id(file_id);
    s.append(stem.as_str());
    s.append(".crabe.cpct");
    proof {
        reveal_strlit("/");
        assert(s@ =~= path@ + seq!['/'] + spec_file_stem(file_id) + ".crabe.cpct"@);
    }
    s
}

/// An ASCII decimal digit.
pub open spec fn spec_is_digit(b: u8) -> bool {
    48 <= b <= 57
}

/// The value of a big-endian decimal digit string.
pub open spec fn spec_dec_value(s: Seq<u8>) -> int
    decreases s.len(),
{
    if s.len() == 0 {
        0
    } else {
        spec_dec_value(s.drop_last()) * 10 + (s.last() - 48)
    }
}

/// Ten to the `n`.
pub open spec fn spec_pow10(n: int) -> int
    decreases n,
{
    if n <= 0 {
        1
    } else {
        10 * spec_pow10(n - 1)
    }
}

/// The suffix every data file name carries: a dot and the data extension.
pub open spec fn spec_data_file_suffix() -> Seq<u8> {
    seq![46u8, 99u8, 114u8, 97u8, 98u8, 101u8, 46u8, 115u8, 115u8, 116u8]
}

/// The id a directory entry's name denotes: ten decimal digits whose value
/// fits a 32-bit id, followed by the data-file suffix.
pub open spec fn spec_parse_data_file_name(name: Seq<u8>) -> Option<u32> {
    if name.len() == 20 && (forall|i: int| 0 <= i < 10 ==> spec_is_digit(#[trigger] name[i]))
        && name.subrange(10, 20) == spec_data_file_suffix() && spec_dec_value(
        name.subrange(0, 10),
    ) <= u32::MAX {
        Some(spec_dec_value(name.subrange(0, 10)) as u32)
    } else {
        None
    }
}

/// Parse one directory entry's name as a data-file name.
pub fn parse_data_file_name(name: &[u8]) -> (r: Option<u32>)
    ensures
        r == spec_parse_data_file_name(name@),
{
    if name.len() != 20 {
        return None;
    }
    let mut value: u64 = 0;
    let mut i: usize = 0;
    while i < 10
        invariant
            name@.len() == 20,
            i <= 10,
            forall|j: int| 0 <= j < i ==> spec_is_digit(#[trigger] name@[j]),
            value == spec_dec_value(name@.subrange(0, i as int)),
            value < spec_pow10(i as int),
        decreases 10 - i,
    {
        let b = name[i];
        if b < 48 || b > 57 {
            return None;
        }
        proof {
            lemma_pow10_values();
            assert(spec_pow10(i as int) <= spec_pow10(9)) by {
                lemma_pow10_monotone(i as int, 9);
            }
            assert(name@.subrange(0, i + 1).drop_last() =~= name@.subrange(0, i as int));
            assert(name@.subrange(0, i + 1).last() == name@[i as int]);
        }
        value = value * 10 + ((b - 48) as u64);
        i = i + 1;
    }
    if name[10] != 46 || name[11] != 99 || name[12] != 114 || name[13] != 97 || name[14] != 98
        || name[15] != 101 || name[16] != 46 || name[17] != 115 || name[18] != 115 || name[19]
        != 116 {
        proof {
            if name@.subrange(10, 20) == spec_data_file_suffix() {
                assert(name@[10] == name@.subrange(10, 20)[0]);
                assert(name@[11] == name@.subrange(10, 20)[1]);
                assert(name@[12] == name@.subrange(10, 20)[2]);
                assert(name@[13] == name@.subrange(10, 20)[3]);
                assert(name@[14] == name@.subrange(10, 20)[4]);
                assert(name@[15] == name@.subrange(10, 20)[5]);
                assert(name@[16] == name@.subrange(10, 20)[6]);
                assert(name@[17] == name@.subrange(10, 20)[7]);
                assert(name@[18] == name@.subrange(10, 20)[8]);
                assert(name@[19] == name@.subrange(10, 20)[9]);
            }
        }
        return None;
    }
    proof {
        assert(name@.subrange(10, 20) =~= spec_data_file_suffix());
        assert(name@.subrange(0, 10) =~= name@.subrange(0, 10int));
    }
    if value > u32::MAX as u64 {
        return None;
    }
    Some(value as u32)
}

/// The first few powers of ten, spelled out.
pub proof fn lemma_pow10_values()
    ensures
        spec_pow10(9) == 1000000000,
        spec_pow10(10) == 10000000000,
{
    assert(spec_pow10(0) == 1);
    assert(spec_pow10(1) == 10);
    assert(spec_pow10(2) == 100);
    assert(spec_pow10(3) == 1000);
    assert(spec_pow10(4) == 10000);
    assert(spec_pow10(5) == 100000);
    assert(spec_pow10(6) == 1000000);
    assert(spec_pow10(7) == 10000000);
    assert(spec_pow10(8) == 100000000);
    assert(spec_pow10(9) == 1000000000);
    assert(spec_pow10(10) == 10000000000);
}

/// Powers of ten grow with the exponent.
pub proof fn lemma_pow10_monotone(a: int, b: int)
    requires
        a <= b,
    ensures
        spec_pow10(a) <= spec_pow10(b),
        spec_pow10(a) >= 1,
    decreases b,
{
    if a < b && b > 0 {
        lemma_pow10_monotone(a, b - 1);
    }
    if b <= 0 {
    } else {
        lemma_pow10_monotone(b - 1, b - 1);
    }
}

/// The ids of the data files among a directory's entries, ascending and
/// without duplicates.
pub fn find_data_files(names: &Vec<Vec<u8>>) -> (r: Vec<u32>)
    ensures
        forall|a: int, b: int| 0 <= a < b < r@.len() ==> r@[a] < r@[b],
        forall|id: u32|
            #[trigger] r@.contains(id) <==> exists|i: int|
                0 <= i < names@.len() && spec_parse_data_file_name(#[trigger] names@[i]@) == Some(
                    id,
                ),
    {
    let n = names.len();
    let mut r: Vec<u32> = Vec::new();
    let mut i: usize = 0;
    while i < n
        invariant
            n == names@.len(),
            i <= n,
            forall|a: int, b: int| 0 <= a < b < r@.len() ==> r@[a] < r@[b],
            forall|id: u32|
                #[trigger] r@.contains(id) <==> exists|j: int|
                    0 <= j < i && spec_parse_data_file_name(#[trigger] names@[j]@) == Some(id),
        decreases n - i,
    {
        match parse_data_file_name(names[i].as_slice()) {
            Some(id) => {
                insert_sorted(&mut r, id);
                proof {
                    assert(spec_parse_data_file_name(names@[i as int]@) == Some(id));
                }
            },
            None => {},
        }
        proof {
            assert forall|id: u32| #[trigger] r@.contains(id) <==> exists|j: int|
                0 <= j < i + 1 && spec_parse_data_file_name(#[trigger] names@[j]@) == Some(
                    id,
                ) by {
                if r@.contains(id) {
                    if spec_parse_data_file_name(names@[i as int]@) != Some(id) {
                        let j = choose|j: int|
                            0 <= j < i && spec_parse_data_file_name(#[trigger] names@[j]@)
                                == Some(id);
                        assert(0 <= j < i + 1 && spec_parse_data_file_name(names@[j]@) == Some(
                            id,
                        ));
                    }
                }
            }
        }
        i = i + 1;
    }
    r
}

/// The scaled value and the exponent the human-readable form prints: divide
/// by the unit until the value drops under it.
pub open spec fn spec_scale(v: int, unit: int) -> (int, int)
    decreases v,
    via spec_scale_decreases
{
    if unit < 2 || v < 0 {
        (v, 0)
    } else if v < unit {
        (v, 0)
    } else {
        let p = spec_scale(v / unit, unit);
        (p.0, p.1 + 1)
    }
}

#[via_fn]
proof fn spec_scale_decreases(v: int, unit: int) {
    if !(unit < 2 || v < 0) && !(v < unit) {
        vstd::arithmetic::div_mod::lemma_div_decreases(v, unit);
    }
}

/// The unit prefix of one exponent: the thousands row for SI units, the
/// binary row with an `i` otherwise; exponents past exa fall back to a
/// question mark.
pub open spec fn spec_unit_prefix(e: int, si: bool) -> Seq<char> {
    let c = if e == 1 {
        if si {
            'k'
        } else {
            'K'
        }
    } else if e == 2 {
        'M'
    } else if e == 3 {
        'G'
    } else if e == 4 {
        'T'
    } else if e == 5 {
        'P'
    } else if e == 6 {
        'E'
    } else {
        '?'
    };
    if si {
        seq![c]
    } else {
        seq![c, 'i']
    }
}

/// The human-readable form of a byte count.
pub open spec fn spec_human_readable_byte_count(bytes: int, si: bool) -> Seq<char> {
    let unit: int = if si {
        1000
    } else {
        1024
    };
    if bytes < unit {
        spec_dec_digits(bytes) + seq![' ', 'B']
    } else {
        let p = spec_scale(bytes, unit);
        spec_dec_digits(p.0) + seq![' '] + spec_unit_prefix(p.1, si) + seq!['B']
    }
}

/// A byte count scaled to its largest unit, printed as digits, a space, the
/// unit prefix and `B`.
pub fn human_readable_byte_count(bytes: usize, si: bool) -> (r: String)
    ensures
        r@ == spec_human_readable_byte_count(bytes as int, si),
{
    proof {
        reveal_strlit(" B");
        reveal_strlit(" ");
        reveal_strlit("B");
        reveal_strlit("i");
        reveal_strlit("k");
        reveal_strlit("K");
        reveal_strlit("M");
        reveal_strlit("G");
        reveal_strlit("T");
        reveal_strlit("P");
        reveal_strlit("E");
        reveal_strlit("?");
    }
    let unit: usize = if si {
        1000
    } else {
        1024
    };
    if bytes < unit {
        let mut s = format_u64(bytes as u64);
        s.append(" B");
        proof {
            assert(s@ =~= spec_human_readable_byte_count(bytes as int, si));
        }
        return s;
    }
    let mut v: usize = bytes;
    let mut exp: usize = 0;
    while v >= unit
        invariant
            unit == 1000 || unit == 1024,
            spec_scale(bytes as int, unit as int) == (
                spec_scale(v as int, unit as int).0,
                spec_scale(v as int, unit as int).1 + exp,
            ),
            exp + v <= bytes,
            v >= 1,
        decreases v,
    {
        proof {
            vstd::arithmetic::div_mod::lemma_div_decreases(v as int, unit as int);
            vstd::arithmetic::div_mod::lemma_div_pos_is_pos(v as int, unit as int);
            assert(spec_scale(v as int, unit as int) == (
                spec_scale(v as int / unit as int, unit as int).0,
                spec_scale(v as int / unit as int, unit as int).1 + 1,
            ));
        }
        v = v / unit;
        exp = exp + 1;
    }
    let mut s = format_u64(v as u64);
    s.append(" ");
    let pre: &str = if exp == 1 {
        if si {
            "k"
        } else {
            "K"
        }
    } else if exp == 2 {
        "M"
    } else if exp == 3 {
        "G"
    } else if exp == 4 {
        "T"
    } else if exp == 5 {
        "P"
    } else if exp == 6 {
        "E"
    } else {
        "?"
    };
    s.append(pre);
    if !si {
        s.append("i");
    }
    s.append("B");
    proof {
        assert(s@ =~= spec_human_readable_byte_count(bytes as int, si));
    }
    s
}

} // verus!
