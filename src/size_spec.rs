use vstd::prelude::*;

verus! {

/// Why a size specification was rejected.
#[derive(Debug, Clone, Copy, PartialEq, Eq, Structural)]
pub enum SizeSpecError {
    /// The letters after the number are not a known unit.
    BadMultiplier,
    /// The part before the unit is not a decimal number that fits in 64 bits.
    BadNumber,
    /// The number times the unit does not fit in 64 bits.
    TooLarge,
}

pub open spec fn is_alpha(c: char) -> bool {
    ('a' <= c && c <= 'z') || ('A' <= c && c <= 'Z')
}

pub open spec fn is_digit(c: char) -> bool {
    '0' <= c && c <= '9'
}

/// Index of the first ASCII letter of `s`, or `s.len()` when there is none.
pub open spec fn first_alpha(s: Seq<char>) -> int
    decreases s.len(),
{
    if s.len() == 0 {
        0
    } else if is_alpha(s[0]) {
        0
    } else {
        1 + first_alpha(s.drop_first())
    }
}

/// The lower-case form of the letters that occur in unit names; every other
/// character is left as it is, so it never equals one of those letters.
pub open spec fn fold_unit_char(c: char) -> char {
    if c == 'K' {
        'k'
    } else if c == 'M' {
        'm'
    } else if c == 'G' {
        'g'
    } else if c == 'T' {
        't'
    } else if c == 'I' {
        'i'
    } else if c == 'B' {
        'b'
    } else {
        c
    }
}

/// `s` spells the lower-case unit name `name`, ignoring ASCII case.
pub open spec fn spells(s: Seq<char>, name: Seq<char>) -> bool {
    s.len() == name.len() && forall|i: int| 0 <= i < s.len() ==> fold_unit_char(#[trigger] s[i]) == name[i]
}

/// The factor that a unit suffix stands for: powers of 1000 for SI units,
/// powers of 1024 for IEC units, 1 for no suffix.
pub open spec fn unit_factor(s: Seq<char>) -> Option<nat> {
    if s.len() == 0 {
        Some(1)
    } else if spells(s, seq!['k']) || spells(s, seq!['k', 'b']) {
        Some(1000)
    } else if spells(s, seq!['m']) || spells(s, seq!['m', 'b']) {
        Some(1000000)
    } else if spells(s, seq!['g']) || spells(s, seq!['g', 'b']) {
        Some(1000000000)
    } else if spells(s, seq!['t']) || spells(s, seq!['t', 'b']) {
        Some(1000000000000)
    } else if spells(s, seq!['k', 'i']) || spells(s, seq!['k', 'i', 'b']) {
        Some(1024)
    } else if spells(s, seq!['m', 'i']) || spells(s, seq!['m', 'i', 'b']) {
        Some(1048576)
    } else if spells(s, seq!['g', 'i']) || spells(s, seq!['g', 'i', 'b']) {
        Some(1073741824)
    } else if spells(s, seq!['t', 'i']) || spells(s, seq!['t', 'i', 'b']) {
        Some(1099511627776)
    } else {
        None
    }
}

pub open spec fn all_digits(s: Seq<char>) -> bool {
    forall|i: int| 0 <= i < s.len() ==> is_digit(#[trigger] s[i])
}

/// Value of a string of decimal digits.
pub open spec fn digits_value(s: Seq<char>) -> nat
    decreases s.len(),
{
    if s.len() == 0 {
        0
    } else {
        digits_value(s.drop_last()) * 10 + (s.last() as nat - '0' as nat) as nat
    }
}

/// The digits of a decimal number as Rust's unsigned parser takes it: an
/// optional `+` followed by at least one digit.
pub open spec fn number_digits(s: Seq<char>) -> Option<Seq<char>> {
    let d = if s.len() > 0 && s[0] == '+' { s.drop_first() } else { s };
    if d.len() > 0 && all_digits(d) {
        Some(d)
    } else {
        None
    }
}

/// What a size specification denotes: a decimal number, then an optional
/// unit, the split falling at the first ASCII letter.
pub open spec fn size_spec_meaning(s: Seq<char>) -> Result<u64, SizeSpecError> {
    let k = first_alpha(s);
    let num = s.subrange(0, k);
    let unit = s.subrange(k, s.len() as int);
    match unit_factor(unit) {
        None => Err(SizeSpecError::BadMultiplier),
        Some(f) => match number_digits(num) {
            None => Err(SizeSpecError::BadNumber),
            Some(d) => if digits_value(d) > u64::MAX {
                Err(SizeSpecError::BadNumber)
            } else if digits_value(d) * f > u64::MAX {
                Err(SizeSpecError::TooLarge)
            } else {
                Ok((digits_value(d) * f) as u64)
            },
        },
    }
}

proof fn lemma_first_alpha(s: Seq<char>)
    ensures
        0 <= first_alpha(s) <= s.len(),
        forall|j: int| 0 <= j < first_alpha(s) ==> !is_alpha(#[trigger] s[j]),
        first_alpha(s) < s.len() ==> is_alpha(s[first_alpha(s)]),
    decreases s.len(),
{
    if s.len() > 0 && !is_alpha(s[0]) {
        lemma_first_alpha(s.drop_first());
        assert forall|j: int| 0 <= j < first_alpha(s) implies !is_alpha(#[trigger] s[j]) by {
            if j > 0 {
                assert(s[j] == s.drop_first()[j - 1]);
            }
        }
    }
}

proof fn lemma_first_alpha_unique(s: Seq<char>, k: int)
    requires
        0 <= k <= s.len(),
        forall|j: int| 0 <= j < k ==> !is_alpha(#[trigger] s[j]),
        k < s.len() ==> is_alpha(s[k]),
    ensures
        first_alpha(s) == k,
{
    lemma_first_alpha(s);
    if first_alpha(s) < k {
        assert(!is_alpha(s[first_alpha(s)]));
    }
    if k < first_alpha(s) {
        assert(!is_alpha(s[k]));
    }
}

proof fn lemma_digits_value_grows(s: Seq<char>, i: int)
    requires
        0 <= i <= s.len(),
    ensures
        digits_value(s) >= digits_value(s.subrange(0, i)),
    decreases s.len(),
{
    if i < s.len() {
        lemma_digits_value_grows(s.drop_last(), i);
        assert(s.drop_last().subrange(0, i) =~= s.subrange(0, i));
    } else {
        assert(s.subrange(0, i) =~= s);
    }
}

/// Reads the digits `s[from..to]` as a decimal number; `None` when the
/// value does not fit in 64 bits.
fn read_decimal(s: &str, from: usize, to: usize) -> (r: Option<u64>)
    requires
        from <= to <= s@.len(),
        all_digits(s@.subrange(from as int, to as int)),
    ensures
        r == (if digits_value(s@.subrange(from as int, to as int)) <= u64::MAX {
            Some(digits_value(s@.subrange(from as int, to as int)) as u64)
        } else {
            None::<u64>
        }),
{
    let ghost d = s@.subrange(from as int, to as int);
    let mut acc: u64 = 0;
    let mut i: usize = from;
    while i < to
        invariant
            from <= i <= to <= s@.len(),
            d == s@.subrange(from as int, to as int),
            all_digits(d),
            acc as nat == digits_value(d.subrange(0, i - from)),
        decreases to - i,
    {
        let c = s.get_char(i);
        assert(c == d[i - from]);
        let digit: u64 = (c as u32 - '0' as u32) as u64;
        proof {
            assert(d.subrange(0, i + 1 - from).drop_last() =~= d.subrange(0, i - from));
        }
        if acc > (u64::MAX - digit) / 10 {
            proof {
                lemma_digits_value_grows(d, i + 1 - from);
                assert(d.subrange(0, d.len() as int) =~= d);
            }
            return None;
        }
        acc = acc * 10 + digit;
        i = i + 1;
    }
    proof {
        assert(d.subrange(0, to - from) =~= d);
    }
    Some(acc)
}

/// Reads a file size such as `100000`, `10k`, `10kb`, `10Ki` or `10KiB`:
/// a decimal number followed by an optional unit, SI units (k, m, g, t) as
/// powers of 1000 and IEC units (ki, mi, gi, ti) as powers of 1024, with an
/// optional trailing `b`, in any case.
pub fn parse_file_size_spec(s: &str) -> (r: Result<u64, SizeSpecError>)
    ensures
        r == size_spec_meaning(s@),
{
    let n = s.unicode_len();
    let mut k: usize = 0;
    while k < n && !is_ascii_letter(s.get_char(k))
        invariant
            n == s@.len(),
            k <= n,
            forall|j: int| 0 <= j < k ==> !is_alpha(#[trigger] s@[j]),
        decreases n - k,
    {
        k = k + 1;
    }
    proof {
        lemma_first_alpha_unique(s@, k as int);
    }
    let ghost num = s@.subrange(0, k as int);
    let multiplier = match unit_multiplier(s, k) {
        None => return Err(SizeSpecError::BadMultiplier),
        Some(m) => m,
    };
    let mut start: usize = 0;
    if k > 0 && s.get_char(0) == '+' {
        start = 1;
    }
    proof {
        if k > 0 && s@[0] == '+' {
            assert(num.drop_first() =~= s@.subrange(1, k as int));
        } else {
            assert(num =~= s@.subrange(0, k as int));
        }
    }
    if start == k {
        return Err(SizeSpecError::BadNumber);
    }
    let mut i: usize = start;
    while i < k
        invariant
            start <= i <= k <= n,
            n == s@.len(),
            num == s@.subrange(0, k as int),
            k == first_alpha(s@),
            unit_factor(s@.subrange(k as int, n as int)) == Some(multiplier as nat),
            start == (if k > 0 && s@[0] == '+' { 1usize } else { 0usize }),
            forall|j: int| start <= j < i ==> is_digit(#[trigger] s@[j]),
        decreases k - i,
    {
        let c = s.get_char(i);
        if !('0' <= c && c <= '9') {
            proof {
                let d = s@.subrange(start as int, k as int);
                assert(d[i - start] == c);
                assert(!all_digits(d));
                if k > 0 && s@[0] == '+' {
                    assert(num.drop_first() =~= d);
                } else {
                    assert(num =~= d);
                }
            }
            return Err(SizeSpecError::BadNumber);
        }
        i = i + 1;
    }
    proof {
        let d = s@.subrange(start as int, k as int);
        assert forall|j: int| 0 <= j < d.len() implies is_digit(#[trigger] d[j]) by {
            assert(d[j] == s@[start + j]);
        }
    }
    match read_decimal(s, start, k) {
        None => Err(SizeSpecError::BadNumber),
        Some(v) => {
            if multiplier != 0 && v > u64::MAX / multiplier {
                proof {
                    assert(v * multiplier > u64::MAX) by (nonlinear_arith)
                        requires
                            multiplier > 0,
                            v > u64::MAX / multiplier,
                    ;
                }
                Err(SizeSpecError::TooLarge)
            } else {
                proof {
                    assert(v * multiplier <= u64::MAX) by (nonlinear_arith)
                        requires
                            multiplier == 0 || v <= u64::MAX / multiplier,
                    ;
                }
                Ok(v * multiplier)
            }
        },
    }
}

fn is_ascii_letter(c: char) -> (r: bool)
    ensures
        r == is_alpha(c),
{
    ('a' <= c && c <= 'z') || ('A' <= c && c <= 'Z')
}

/// Lower-case form of an ASCII letter used in unit names.
fn fold_char(c: char) -> (r: char)
    ensures
        r == fold_unit_char(c),
{
    if c == 'K' {
        'k'
    } else if c == 'M' {
        'm'
    } else if c == 'G' {
        'g'
    } else if c == 'T' {
        't'
    } else if c == 'I' {
        'i'
    } else if c == 'B' {
        'b'
    } else {
        c
    }
}

/// The factor of the unit `s[k..]`.
fn unit_multiplier(s: &str, k: usize) -> (r: Option<u64>)
    requires
        k <= s@.len(),
    ensures
        r matches Some(m) ==> unit_factor(s@.subrange(k as int, s@.len() as int)) == Some(m as nat),
        r is None ==> unit_factor(s@.subrange(k as int, s@.len() as int)) is None,
{
    let ghost u = s@.subrange(k as int, s@.len() as int);
    let n = s.unicode_len();
    let len = n - k;
    if len == 0 {
        return Some(1);
    }
    if len > 3 {
        return None;
    }
    let c0 = fold_char(s.get_char(k));
    let c1 = if len > 1 { fold_char(s.get_char(k + 1)) } else { ' ' };
    let c2 = if len > 2 { fold_char(s.get_char(k + 2)) } else { ' ' };
    assert(fold_unit_char(u[0]) == c0);
    assert(len > 1 ==> fold_unit_char(u[1]) == c1);
    assert(len > 2 ==> fold_unit_char(u[2]) == c2);
    let base: u64 = if c0 == 'k' {
        1
    } else if c0 == 'm' {
        2
    } else if c0 == 'g' {
        3
    } else if c0 == 't' {
        4
    } else {
        0
    };
    if base == 0 {
        return None;
    }
    // the shape of the rest: "", "b", "i" or "ib"
    let si = len == 1 || (len == 2 && c1 == 'b');
    let iec = (len == 2 && c1 == 'i') || (len == 3 && c1 == 'i' && c2 == 'b');
    if si {
        Some(if base == 1 {
            1000
        } else if base == 2 {
            1000000
        } else if base == 3 {
            1000000000
        } else {
            1000000000000
        })
    } else if iec {
        Some(if base == 1 {
            1024
        } else if base == 2 {
            1048576
        } else if base == 3 {
            1073741824
        } else {
            1099511627776
        })
    } else {
        None
    }
}

} // verus!
