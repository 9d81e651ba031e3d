//! Byte-size values: exact counts of bytes parsed from and rendered to
//! human-readable strings such as `"500kb"` or `"1 MiB"`.

use vstd::prelude::*;
use vstd::string::StrSliceExecFns;

verus! {

/// The kind of failure that parsing a byte-size string reports.
#[derive(Clone, Copy, Debug, PartialEq, Eq, Structural)]
pub enum SizeErrorKind {
    /// The string to parse was empty.
    Empty,
    /// The digit run is malformed: a non-digit stood where the number must
    /// start, or a separator was not immediately preceded by a digit.
    InvalidDigit,
    /// The trailing text does not match any recognized unit suffix.
    ///
    /// Case-insensitive suffixes include: b, kb, kib, mb, mib, gb, gib, tb,
    /// tib, pb, and pib.
    InvalidSuffix,
    /// The number was negative.
    NegOverflow,
}

/// Error returned by [`Size::from_str`].
#[derive(Clone, Copy, Debug, PartialEq, Eq, Structural)]
pub struct ParseSizeError {
    pub kind: SizeErrorKind,
}

impl ParseSizeError {
    /// A short human-readable description of the error.
    pub fn message(&self) -> (r: &'static str)
        ensures
            self.kind is Empty ==> r@ == "empty"@,
            self.kind is InvalidDigit ==> r@ == "invalid digit"@,
            self.kind is InvalidSuffix ==> r@ == "invalid suffix"@,
            self.kind is NegOverflow ==> r@ == "negative overflow"@,
    {
        match self.kind {
            SizeErrorKind::Empty => "empty",
            SizeErrorKind::InvalidDigit => "invalid digit",
            SizeErrorKind::InvalidSuffix => "invalid suffix",
            SizeErrorKind::NegOverflow => "negative overflow",
        }
    }
}

impl From<SizeErrorKind> for ParseSizeError {
    /// Wraps the kind.
    fn from(value: SizeErrorKind) -> (e: ParseSizeError) {
        ParseSizeError { kind: value }
    }
}

impl vstd::std_specs::convert::FromSpecImpl<SizeErrorKind> for ParseSizeError {
    open spec fn obeys_from_spec() -> bool {
        true
    }

    open spec fn from_spec(value: SizeErrorKind) -> ParseSizeError {
        ParseSizeError { kind: value }
    }
}

/// A unit suffix together with its byte multiplier: decimal units step by
/// 1000, binary units by 1024.
#[derive(Clone, Copy, Debug, PartialEq, Eq, Structural)]
pub enum Suffix {
    B,
    KB,
    KiB,
    MB,
    MiB,
    GB,
    GiB,
    TB,
    TiB,
    PB,
    PiB,
}

impl Suffix {
    /// The number of bytes one unit of this suffix stands for.
    pub open spec fn spec_mult(self) -> int {
        match self {
            Suffix::B => 1,
            Suffix::KB => 1_000,
            Suffix::KiB => 1_024,
            Suffix::MB => 1_000_000,
            Suffix::MiB => 1_048_576,
            Suffix::GB => 1_000_000_000,
            Suffix::GiB => 1_073_741_824,
            Suffix::TB => 1_000_000_000_000,
            Suffix::TiB => 1_099_511_627_776,
            Suffix::PB => 1_000_000_000_000_000,
            Suffix::PiB => 1_125_899_906_842_624,
        }
    }

    /// The canonical rendering of this suffix.
    pub open spec fn spec_name(self) -> Seq<char> {
        match self {
            Suffix::B => seq!['B'],
            Suffix::KB => seq!['K', 'B'],
            Suffix::KiB => seq!['K', 'i', 'B'],
            Suffix::MB => seq!['M', 'B'],
            Suffix::MiB => seq!['M', 'i', 'B'],
            Suffix::GB => seq!['G', 'B'],
            Suffix::GiB => seq!['G', 'i', 'B'],
            Suffix::TB => seq!['T', 'B'],
            Suffix::TiB => seq!['T', 'i', 'B'],
            Suffix::PB => seq!['P', 'B'],
            Suffix::PiB => seq!['P', 'i', 'B'],
        }
    }

    /// The multiplier, as a machine integer.
    pub fn mult(self) -> (m: u64)
        ensures
            m as int == self.spec_mult(),
    {
        match self {
            Suffix::B => 1,
            Suffix::KB => 1_000,
            Suffix::KiB => 1_024,
            Suffix::MB => 1_000_000,
            Suffix::MiB => 1_048_576,
            Suffix::GB => 1_000_000_000,
            Suffix::GiB => 1_073_741_824,
            Suffix::TB => 1_000_000_000_000,
            Suffix::TiB => 1_099_511_627_776,
            Suffix::PB => 1_000_000_000_000_000,
            Suffix::PiB => 1_125_899_906_842_624,
        }
    }

    /// The canonical rendering, e.g. `"KiB"`.
    pub fn name(self) -> (r: &'static str)
        ensures
            r@ == self.spec_name(),
    {
        proof {
            reveal_strlit("B");
            reveal_strlit("KB");
            reveal_strlit("KiB");
            reveal_strlit("MB");
            reveal_strlit("MiB");
            reveal_strlit("GB");
            reveal_strlit("GiB");
            reveal_strlit("TB");
            reveal_strlit("TiB");
            reveal_strlit("PB");
            reveal_strlit("PiB");
        }
        let r = match self {
            Suffix::B => "B",
            Suffix::KB => "KB",
            Suffix::KiB => "KiB",
            Suffix::MB => "MB",
            Suffix::MiB => "MiB",
            Suffix::GB => "GB",
            Suffix::GiB => "GiB",
            Suffix::TB => "TB",
            Suffix::TiB => "TiB",
            Suffix::PB => "PB",
            Suffix::PiB => "PiB",
        };
        proof {
            assert(r@ =~= self.spec_name());
        }
        r
    }
}

/// An ASCII decimal digit.
pub open spec fn is_digit(c: char) -> bool {
    '0' <= c && c <= '9'
}

/// The numeric value of a digit character.
pub open spec fn digit_val(c: char) -> int {
    c as int - '0' as int
}

/// A separator that may interleave the digits of a number.
pub open spec fn is_sep(c: char) -> bool {
    c == ',' || c == '_' || c == ' '
}

/// Case-insensitive match of `a` against the lower-case letter `b`.
pub open spec fn ci(a: char, b: char) -> bool {
    a == b || a as int == b as int - 32
}

/// Whether position `i` still belongs to the number: a digit anywhere, or a
/// separator immediately preceded by a digit.
pub open spec fn pos_ok(s: Seq<char>, i: int) -> bool {
    is_digit(s[i]) || (is_sep(s[i]) && i > 0 && is_digit(s[i - 1]))
}

/// The first position at or after `i` that no longer belongs to the number.
pub open spec fn scan_from(s: Seq<char>, i: int) -> int
    decreases s.len() - i,
{
    if i < 0 || i >= s.len() {
        i
    } else if pos_ok(s, i) {
        scan_from(s, i + 1)
    } else {
        i
    }
}

/// Where the number ends and the suffix (if any) begins.
pub open spec fn scan_len(s: Seq<char>) -> int {
    scan_from(s, 0)
}

/// The value of the digits of `s`, read left to right; separators are
/// ignored.
pub open spec fn digits_val(s: Seq<char>) -> int
    decreases s.len(),
{
    if s.len() == 0 {
        0
    } else if is_digit(s.last()) {
        digits_val(s.drop_last()) * 10 + digit_val(s.last())
    } else {
        digits_val(s.drop_last())
    }
}

/// The multiplier of a recognized unit suffix, matched case-insensitively,
/// or `None` if the text is not a suffix.
pub open spec fn suffix_mult(s: Seq<char>) -> Option<int> {
    if s.len() == 1 && ci(s[0], 'b') {
        Some(1int)
    } else if s.len() == 2 && ci(s[0], 'k') && ci(s[1], 'b') {
        Some(1_000int)
    } else if s.len() == 2 && ci(s[0], 'm') && ci(s[1], 'b') {
        Some(1_000_000int)
    } else if s.len() == 2 && ci(s[0], 'g') && ci(s[1], 'b') {
        Some(1_000_000_000int)
    } else if s.len() == 2 && ci(s[0], 't') && ci(s[1], 'b') {
        Some(1_000_000_000_000int)
    } else if s.len() == 2 && ci(s[0], 'p') && ci(s[1], 'b') {
        Some(1_000_000_000_000_000int)
    } else if s.len() == 3 && ci(s[0], 'k') && ci(s[1], 'i') && ci(s[2], 'b') {
        Some(1_024int)
    } else if s.len() == 3 && ci(s[0], 'm') && ci(s[1], 'i') && ci(s[2], 'b') {
        Some(1_048_576int)
    } else if s.len() == 3 && ci(s[0], 'g') && ci(s[1], 'i') && ci(s[2], 'b') {
        Some(1_073_741_824int)
    } else if s.len() == 3 && ci(s[0], 't') && ci(s[1], 'i') && ci(s[2], 'b') {
        Some(1_099_511_627_776int)
    } else if s.len() == 3 && ci(s[0], 'p') && ci(s[1], 'i') && ci(s[2], 'b') {
        Some(1_125_899_906_842_624int)
    } else {
        None
    }
}

/// What parsing a byte-size string yields: the exact byte count, or the
/// first error the scan encounters.
///
/// The string is scanned left to right. Digits accumulate into a number;
/// separators are allowed only immediately after a digit. At the first
/// character that is neither, a minus sign fails as negative; a stop at
/// the very start, or at a separator that no digit precedes (a malformed
/// digit run), fails as an invalid digit; otherwise the remainder of the
/// string must be a recognized unit suffix, and the result is the number
/// times its multiplier.
pub open spec fn spec_parse(s: Seq<char>) -> Result<int, SizeErrorKind> {
    if s.len() == 0 {
        Err(SizeErrorKind::Empty)
    } else {
        let j = scan_len(s);
        if j == s.len() {
            Ok(digits_val(s))
        } else if s[j] == '-' {
            Err(SizeErrorKind::NegOverflow)
        } else if j == 0 || is_sep(s[j]) {
            Err(SizeErrorKind::InvalidDigit)
        } else {
            match suffix_mult(s.subrange(j, s.len() as int)) {
                Some(m) => Ok(digits_val(s.subrange(0, j)) * m),
                None => Err(SizeErrorKind::InvalidSuffix),
            }
        }
    }
}

/// The character for the digit `d`.
pub open spec fn digit_char(d: int) -> char {
    if d == 0 {
        '0'
    } else if d == 1 {
        '1'
    } else if d == 2 {
        '2'
    } else if d == 3 {
        '3'
    } else if d == 4 {
        '4'
    } else if d == 5 {
        '5'
    } else if d == 6 {
        '6'
    } else if d == 7 {
        '7'
    } else if d == 8 {
        '8'
    } else {
        '9'
    }
}

/// The decimal rendering of the non-negative integer `n`, without
/// separators or padding.
pub open spec fn dec_str(n: int) -> Seq<char>
    decreases n,
{
    if n < 10 {
        seq![digit_char(n)]
    } else {
        dec_str(n / 10).push(digit_char(n % 10))
    }
}

/// The largest suffix of the chosen family whose multiplier does not
/// exceed `v`; the base unit when `v` is below the smallest multiplier.
pub open spec fn pick_suffix(v: int, binary: bool) -> Suffix {
    if binary {
        if v >= 1_125_899_906_842_624 {
            Suffix::PiB
        } else if v >= 1_099_511_627_776 {
            Suffix::TiB
        } else if v >= 1_073_741_824 {
            Suffix::GiB
        } else if v >= 1_048_576 {
            Suffix::MiB
        } else if v >= 1_024 {
            Suffix::KiB
        } else {
            Suffix::B
        }
    } else {
        if v >= 1_000_000_000_000_000 {
            Suffix::PB
        } else if v >= 1_000_000_000_000 {
            Suffix::TB
        } else if v >= 1_000_000_000 {
            Suffix::GB
        } else if v >= 1_000_000 {
            Suffix::MB
        } else if v >= 1_000 {
            Suffix::KB
        } else {
            Suffix::B
        }
    }
}

/// How `v` bytes display in the decimal (`binary == false`) or binary
/// family: the count divided by the chosen multiplier, rendered bare when
/// the division is exact and with two rounded decimal places otherwise,
/// then one space and the unit name.
pub open spec fn spec_display(v: int, binary: bool) -> Seq<char> {
    let suf = pick_suffix(v, binary);
    let m = suf.spec_mult();
    if v % m == 0 {
        dec_str(v / m) + seq![' '] + suf.spec_name()
    } else {
        let x = (100 * v + m / 2) / m;
        dec_str(x / 100) + seq!['.'] + seq![digit_char(x % 100 / 10), digit_char(x % 100 % 10)]
            + seq![' '] + suf.spec_name()
    }
}

proof fn lemma_scan_run(s: Seq<char>, i: int, j: int)
    requires
        0 <= i <= j <= s.len(),
        forall|k: int| i <= k < j ==> pos_ok(s, k),
        j < s.len() ==> !pos_ok(s, j),
    ensures
        scan_from(s, i) == j,
    decreases j - i,
{
    if i < j {
        assert(pos_ok(s, i));
        lemma_scan_run(s, i + 1, j);
    }
}

proof fn lemma_digits_val_push(s: Seq<char>, c: char)
    ensures
        digits_val(s.push(c)) == if is_digit(c) {
            digits_val(s) * 10 + digit_val(c)
        } else {
            digits_val(s)
        },
{
    assert(s.push(c).drop_last() =~= s);
    assert(s.push(c).last() == c);
}

proof fn lemma_digits_val_nonneg(s: Seq<char>)
    ensures
        digits_val(s) >= 0,
    decreases s.len(),
{
    if s.len() > 0 {
        lemma_digits_val_nonneg(s.drop_last());
    }
}

proof fn lemma_digit_char_val(d: int)
    requires
        0 <= d <= 9,
    ensures
        is_digit(digit_char(d)),
        digit_val(digit_char(d)) == d,
{
}

proof fn lemma_dec_str_props(n: int)
    requires
        n >= 0,
    ensures
        dec_str(n).len() >= 1,
        forall|k: int| 0 <= k < dec_str(n).len() ==> is_digit(#[trigger] dec_str(n)[k]),
        digits_val(dec_str(n)) == n,
    decreases n,
{
    if n < 10 {
        lemma_digit_char_val(n);
        assert(dec_str(n).drop_last() =~= Seq::<char>::empty());
        assert(digits_val(Seq::<char>::empty()) == 0);
        assert(dec_str(n).last() == digit_char(n));
        assert(digits_val(dec_str(n)) == 0 * 10 + digit_val(digit_char(n)));
    } else {
        lemma_dec_str_props(n / 10);
        lemma_digit_char_val(n % 10);
        lemma_digits_val_push(dec_str(n / 10), digit_char(n % 10));
        vstd::arithmetic::div_mod::lemma_fundamental_div_mod(n, 10);
    }
}

proof fn lemma_suffix_name_props(suf: Suffix)
    ensures
        1 <= suf.spec_name().len() <= 3,
        !is_digit(suf.spec_name()[0]),
        !is_sep(suf.spec_name()[0]),
        suf.spec_name()[0] != '-',
        suffix_mult(suf.spec_name()) == Some(suf.spec_mult()),
{
}

/// Whether `c` is an ASCII decimal digit.
fn ch_is_digit(c: char) -> (b: bool)
    ensures
        b == is_digit(c),
{
    c >= '0' && c <= '9'
}

/// Whether `c` may separate groups of digits.
fn ch_is_sep(c: char) -> (b: bool)
    ensures
        b == is_sep(c),
{
    c == ',' || c == '_' || c == ' '
}

/// Case-insensitive comparison against the lower-case letter `lo`.
fn ch_ci(c: char, lo: char) -> (b: bool)
    ensures
        b == ci(c, lo),
{
    c == lo || c as u32 + 32 == lo as u32
}

/// The one-character string for the digit `d`.
fn digit_str(d: u64) -> (r: &'static str)
    requires
        d < 10,
    ensures
        r@ == seq![digit_char(d as int)],
{
    proof {
        reveal_strlit("0");
        reveal_strlit("1");
        reveal_strlit("2");
        reveal_strlit("3");
        reveal_strlit("4");
        reveal_strlit("5");
        reveal_strlit("6");
        reveal_strlit("7");
        reveal_strlit("8");
        reveal_strlit("9");
    }
    let r = match d {
        0 => "0",
        1 => "1",
        2 => "2",
        3 => "3",
        4 => "4",
        5 => "5",
        6 => "6",
        7 => "7",
        8 => "8",
        _ => "9",
    };
    proof {
        assert(r@ =~= seq![digit_char(d as int)]);
    }
    r
}

/// The decimal rendering of `n`.
fn dec_string(n: u128) -> (r: String)
    ensures
        r@ == dec_str(n as int),
    decreases n,
{
    if n < 10 {
        String::from_str(digit_str(n as u64))
    } else {
        let mut r = dec_string(n / 10);
        r.append(digit_str((n % 10) as u64));
        proof {
            assert(r@ =~= dec_str(n as int));
        }
        r
    }
}

/// Renders `v` bytes in the chosen suffix family.
fn render(v: usize, binary: bool) -> (r: String)
    ensures
        r@ == spec_display(v as int, binary),
{
    proof {
        reveal_strlit(" ");
        reveal_strlit(".");
    }
    let v64 = v as u64;
    let suf = if binary {
        if v64 >= 1_125_899_906_842_624 {
            Suffix::PiB
        } else if v64 >= 1_099_511_627_776 {
            Suffix::TiB
        } else if v64 >= 1_073_741_824 {
            Suffix::GiB
        } else if v64 >= 1_048_576 {
            Suffix::MiB
        } else if v64 >= 1_024 {
            Suffix::KiB
        } else {
            Suffix::B
        }
    } else {
        if v64 >= 1_000_000_000_000_000 {
            Suffix::PB
        } else if v64 >= 1_000_000_000_000 {
            Suffix::TB
        } else if v64 >= 1_000_000_000 {
            Suffix::GB
        } else if v64 >= 1_000_000 {
            Suffix::MB
        } else if v64 >= 1_000 {
            Suffix::KB
        } else {
            Suffix::B
        }
    };
    proof {
        assert(suf == pick_suffix(v as int, binary));
    }
    let m = suf.mult();
    if v64 % m == 0 {
        let mut r = dec_string((v64 / m) as u128);
        r.append(" ");
        r.append(suf.name());
        proof {
            assert(r@ =~= spec_display(v as int, binary));
        }
        r
    } else {
        proof {
            assert(m >= 1_000);
        }
        let x = (v as u128 * 100 + (m / 2) as u128) / m as u128;
        let f = (x % 100) as u64;
        let mut r = dec_string(x / 100);
        r.append(".");
        r.append(digit_str(f / 10));
        r.append(digit_str(f % 10));
        r.append(" ");
        r.append(suf.name());
        proof {
            assert(r@ =~= spec_display(v as int, binary));
        }
        r
    }
}

/// Recognizes the unit suffix standing at `s[j..]`, if any.
fn parse_suffix(s: &str, j: usize) -> (r: Option<Suffix>)
    requires
        j < s@.len(),
    ensures
        ({
            let t = s@.subrange(j as int, s@.len() as int);
            match r {
                Some(suf) => suffix_mult(t) == Some(suf.spec_mult()),
                None => suffix_mult(t) is None,
            }
        }),
{
    let n = s.unicode_len();
    let ghost t = s@.subrange(j as int, s@.len() as int);
    let len = n - j;
    let c0 = s.get_char(j);
    proof {
        assert(t.len() == len);
        assert(t[0] == s@[j as int]);
    }
    if len == 1 {
        if ch_ci(c0, 'b') {
            Some(Suffix::B)
        } else {
            None
        }
    } else if len == 2 {
        let c1 = s.get_char(j + 1);
        proof {
            assert(t[1] == s@[j + 1]);
        }
        if !ch_ci(c1, 'b') {
            None
        } else if ch_ci(c0, 'k') {
            Some(Suffix::KB)
        } else if ch_ci(c0, 'm') {
            Some(Suffix::MB)
        } else if ch_ci(c0, 'g') {
            Some(Suffix::GB)
        } else if ch_ci(c0, 't') {
            Some(Suffix::TB)
        } else if ch_ci(c0, 'p') {
            Some(Suffix::PB)
        } else {
            None
        }
    } else if len == 3 {
        let c1 = s.get_char(j + 1);
        let c2 = s.get_char(j + 2);
        proof {
            assert(t[1] == s@[j + 1]);
            assert(t[2] == s@[j + 2]);
        }
        if !(ch_ci(c1, 'i') && ch_ci(c2, 'b')) {
            None
        } else if ch_ci(c0, 'k') {
            Some(Suffix::KiB)
        } else if ch_ci(c0, 'm') {
            Some(Suffix::MiB)
        } else if ch_ci(c0, 'g') {
            Some(Suffix::GiB)
        } else if ch_ci(c0, 't') {
            Some(Suffix::TiB)
        } else if ch_ci(c0, 'p') {
            Some(Suffix::PiB)
        } else {
            None
        }
    } else {
        None
    }
}

/// Represents size: an exact, non-negative count of bytes.
///
/// Equality and ordering are by the exact byte count. Display rounds, the
/// stored value never does. Conversions exist from the unsigned integers
/// only: the count is non-negative, so no conversion from a signed
/// integer is offered.
#[derive(Clone, Copy, Debug, PartialEq, Eq, Ord, Structural, Hash)]
pub struct Size(pub usize);

impl View for Size {
    type V = nat;

    open spec fn view(&self) -> nat {
        self.0 as nat
    }
}

impl From<usize> for Size {
    /// Wraps a byte count.
    fn from(value: usize) -> (s: Size) {
        Size(value)
    }
}

impl vstd::std_specs::convert::FromSpecImpl<usize> for Size {
    open spec fn obeys_from_spec() -> bool {
        true
    }

    open spec fn from_spec(value: usize) -> Size {
        Size(value)
    }
}

impl From<u8> for Size {
    /// Wraps a byte count.
    fn from(value: u8) -> (s: Size) {
        Size(value as usize)
    }
}

impl vstd::std_specs::convert::FromSpecImpl<u8> for Size {
    open spec fn obeys_from_spec() -> bool {
        true
    }

    open spec fn from_spec(value: u8) -> Size {
        Size(value as usize)
    }
}

impl From<u16> for Size {
    /// Wraps a byte count.
    fn from(value: u16) -> (s: Size) {
        Size(value as usize)
    }
}

impl vstd::std_specs::convert::FromSpecImpl<u16> for Size {
    open spec fn obeys_from_spec() -> bool {
        true
    }

    open spec fn from_spec(value: u16) -> Size {
        Size(value as usize)
    }
}

impl From<u32> for Size {
    /// Wraps a byte count.
    fn from(value: u32) -> (s: Size) {
        Size(value as usize)
    }
}

impl vstd::std_specs::convert::FromSpecImpl<u32> for Size {
    open spec fn obeys_from_spec() -> bool {
        true
    }

    open spec fn from_spec(value: u32) -> Size {
        Size(value as usize)
    }
}

impl From<u64> for Size {
    /// Wraps a byte count, truncated to the machine's word on a machine
    /// narrower than 64 bits.
    fn from(value: u64) -> (s: Size) {
        Size(value as usize)
    }
}

impl vstd::std_specs::convert::FromSpecImpl<u64> for Size {
    open spec fn obeys_from_spec() -> bool {
        true
    }

    open spec fn from_spec(value: u64) -> Size {
        Size(value as usize)
    }
}

impl From<u128> for Size {
    /// Wraps a byte count, truncated to the machine's word.
    fn from(value: u128) -> (s: Size) {
        Size(value as usize)
    }
}

impl vstd::std_specs::convert::FromSpecImpl<u128> for Size {
    open spec fn obeys_from_spec() -> bool {
        true
    }

    open spec fn from_spec(value: u128) -> Size {
        Size(value as usize)
    }
}

impl Default for Size {
    /// Zero bytes.
    fn default() -> (s: Size)
        ensures
            s@ == 0,
    {
        Size(0)
    }
}

impl PartialOrd for Size {
    /// Sizes are totally ordered by their exact byte count.
    fn partial_cmp(&self, other: &Size) -> (r: Option<core::cmp::Ordering>) {
        if self.0 < other.0 {
            Some(core::cmp::Ordering::Less)
        } else if self.0 == other.0 {
            Some(core::cmp::Ordering::Equal)
        } else {
            Some(core::cmp::Ordering::Greater)
        }
    }
}

impl vstd::std_specs::cmp::PartialOrdSpecImpl for Size {
    open spec fn obeys_partial_cmp_spec() -> bool {
        true
    }

    open spec fn partial_cmp_spec(&self, other: &Size) -> Option<core::cmp::Ordering> {
        if self@ < other@ {
            Some(core::cmp::Ordering::Less)
        } else if self@ == other@ {
            Some(core::cmp::Ordering::Equal)
        } else {
            Some(core::cmp::Ordering::Greater)
        }
    }
}

impl Size {
    /// The exact byte count.
    pub fn get(&self) -> (v: usize)
        ensures
            v as nat == self@,
    {
        self.0
    }

    /// Wraps a byte count.
    pub fn new(v: usize) -> (s: Size)
        ensures
            s@ == v as nat,
    {
        Size(v)
    }

    /// The default rendering, in decimal units: `1_000_000` displays as
    /// `"1 MB"`.
    pub fn display(&self) -> (r: String)
        ensures
            r@ == spec_display(self@ as int, false),
    {
        render(self.0, false)
    }

    /// The alternate rendering, in binary units: `1_048_576` displays as
    /// `"1 MiB"`.
    pub fn display_alternate(&self) -> (r: String)
        ensures
            r@ == spec_display(self@ as int, true),
    {
        render(self.0, true)
    }

    /// Parses a byte-size string, reporting a value too large for this
    /// machine as `None`.
    ///
    /// The result is exactly what [`spec_parse`] names: `Some(Ok(..))`
    /// carries digits times suffix multiplier whenever that fits in
    /// `usize`, `Some(Err(..))` carries the first error the scan meets,
    /// and `None` stands for a well-formed size beyond `usize::MAX`.
    pub fn checked_from_str(s: &str) -> (r: Option<Result<Size, ParseSizeError>>)
        ensures
            match spec_parse(s@) {
                Ok(v) => if v <= usize::MAX as int {
                    r matches Some(Ok(sz)) && sz@ == v
                } else {
                    r is None
                },
                Err(k) => r == Some(Err::<Size, ParseSizeError>(ParseSizeError { kind: k })),
            },
    {
        let n = s.unicode_len();
        if n == 0 {
            return Some(Err(ParseSizeError { kind: SizeErrorKind::Empty }));
        }
        // Find where the number ends.
        let mut j: usize = 0;
        loop
            invariant
                n == s@.len(),
                0 < n,
                0 <= j <= n,
                forall|k: int| 0 <= k < j ==> pos_ok(s@, k),
            ensures
                0 <= j <= n,
                n == s@.len(),
                forall|k: int| 0 <= k < j ==> pos_ok(s@, k),
                j < n ==> !pos_ok(s@, j as int),
            decreases n - j,
        {
            if j == n {
                break;
            }
            let c = s.get_char(j);
            if ch_is_digit(c) {
            } else if ch_is_sep(c) && j > 0 && ch_is_digit(s.get_char(j - 1)) {
            } else {
                break;
            }
            j += 1;
        }
        proof {
            lemma_scan_run(s@, 0, j as int);
        }
        // Classify the stop: minus sign, a malformed digit run, or a suffix.
        let mult: u64 = if j < n {
            let c = s.get_char(j);
            if c == '-' {
                return Some(Err(ParseSizeError { kind: SizeErrorKind::NegOverflow }));
            }
            if j == 0 || ch_is_sep(c) {
                return Some(Err(ParseSizeError { kind: SizeErrorKind::InvalidDigit }));
            }
            match parse_suffix(s, j) {
                Some(suf) => suf.mult(),
                None => {
                    return Some(Err(ParseSizeError { kind: SizeErrorKind::InvalidSuffix }));
                },
            }
        } else {
            1
        };
        // Accumulate the digits of the number.
        let mut i: usize = 0;
        let mut acc: usize = 0;
        let mut over: bool = false;
        while i < j
            invariant
                n == s@.len(),
                0 <= i <= j <= n,
                forall|k: int| 0 <= k < j ==> pos_ok(s@, k),
                !over ==> acc as int == digits_val(s@.subrange(0, i as int)),
                over ==> digits_val(s@.subrange(0, i as int)) > usize::MAX as int,
            decreases j - i,
        {
            let c = s.get_char(i);
            proof {
                assert(pos_ok(s@, i as int));
                assert(s@.subrange(0, i as int + 1) =~= s@.subrange(0, i as int).push(s@[i as int]));
                lemma_digits_val_push(s@.subrange(0, i as int), s@[i as int]);
                lemma_digits_val_nonneg(s@.subrange(0, i as int));
            }
            if ch_is_digit(c) {
                let d = (c as u32 - 48) as u64;
                proof {
                    assert(d as int == digit_val(s@[i as int]));
                }
                if !over {
                    let wide = acc as u128 * 10 + d as u128;
                    if wide > usize::MAX as u128 {
                        over = true;
                    } else {
                        acc = wide as usize;
                    }
                }
            }
            i += 1;
        }
        // Apply the multiplier.
        let ghost digits = digits_val(s@.subrange(0, j as int));
        proof {
            lemma_digits_val_nonneg(s@.subrange(0, j as int));
            if j == n {
                assert(s@.subrange(0, j as int) =~= s@);
            }
            if over {
                assert(digits * mult as int >= digits) by (nonlinear_arith)
                    requires digits >= 0 && mult as int >= 1;
            }
        }
        if over {
            return None;
        }
        proof {
            assert(acc as u128 * mult as u128 <= u64::MAX as u128 * u64::MAX as u128)
                by (nonlinear_arith)
                requires
                    acc as u128 <= u64::MAX as u128,
                    mult as u128 <= u64::MAX as u128,
            ;
        }
        let total = acc as u128 * mult as u128;
        if total > usize::MAX as u128 {
            None
        } else {
            Some(Ok(Size(total as usize)))
        }
    }

    /// Parses a byte-size string whose value is known to fit this machine.
    ///
    /// The precondition rules out only the strings whose exact value
    /// exceeds `usize::MAX`; use [`Size::checked_from_str`] when the input
    /// is arbitrary.
    pub fn from_str(s: &str) -> (r: Result<Size, ParseSizeError>)
        requires
            spec_parse(s@) matches Ok(v) ==> v <= usize::MAX as int,
        ensures
            match spec_parse(s@) {
                Ok(v) => r matches Ok(sz) && sz@ == v,
                Err(k) => r == Err::<Size, ParseSizeError>(ParseSizeError { kind: k }),
            },
    {
        match Size::checked_from_str(s) {
            Some(r) => r,
            None => {
                proof {
                    assert(false);  // the precondition keeps the value in range
                }
                Err(ParseSizeError { kind: SizeErrorKind::NegOverflow })
            },
        }
    }
}

/// Round trip: whenever a byte count is an exact multiple of the unit its
/// display picks, parsing the displayed string yields the count back
/// exactly. `1000` displays as `"1 KB"`, which parses to `1000`.
pub proof fn lemma_display_round_trip(v: int, binary: bool)
    requires
        0 <= v <= usize::MAX,
        v % pick_suffix(v, binary).spec_mult() == 0,
    ensures
        spec_parse(spec_display(v, binary)) == Ok::<int, SizeErrorKind>(v),
{
    let suf = pick_suffix(v, binary);
    let m = suf.spec_mult();
    let q = v / m;
    vstd::arithmetic::div_mod::lemma_fundamental_div_mod(v, m);
    vstd::arithmetic::div_mod::lemma_div_pos_is_pos(v, m);
    lemma_dec_str_props(q);
    lemma_suffix_name_props(suf);
    let dec = dec_str(q);
    let name = suf.spec_name();
    let ss = spec_display(v, binary);
    assert(ss =~= dec + seq![' '] + name);
    let j = dec.len() as int + 1;
    assert forall|k: int| 0 <= k < j implies pos_ok(ss, k) by {
        if k < dec.len() {
            assert(ss[k] == dec[k]);
        } else {
            assert(ss[k] == ' ');
            assert(ss[k - 1] == dec[dec.len() - 1]);
        }
    }
    assert(ss[j] == name[0]);
    assert(!pos_ok(ss, j));
    lemma_scan_run(ss, 0, j);
    assert(ss.subrange(0, j) =~= dec.push(' '));
    lemma_digits_val_push(dec, ' ');
    assert(ss.subrange(j, ss.len() as int) =~= name);
    assert(spec_parse(ss) == Ok::<int, SizeErrorKind>(q * m));
    assert(q * m == v);
}

/// Lossy the other way: a byte count that is not a multiple of the unit
/// its display picks renders with a decimal point, and the rendered string
/// no longer parses at all — the fractional tail is not a valid suffix.
pub proof fn lemma_display_lossy(v: int, binary: bool)
    requires
        0 <= v <= usize::MAX,
        v % pick_suffix(v, binary).spec_mult() != 0,
    ensures
        spec_parse(spec_display(v, binary)) == Err::<int, SizeErrorKind>(
            SizeErrorKind::InvalidSuffix,
        ),
{
    let suf = pick_suffix(v, binary);
    let m = suf.spec_mult();
    let x = (100 * v + m / 2) / m;
    vstd::arithmetic::div_mod::lemma_div_pos_is_pos(100 * v + m / 2, m);
    vstd::arithmetic::div_mod::lemma_div_pos_is_pos(x, 100);
    vstd::arithmetic::div_mod::lemma_mod_division_less_than_divisor(x, 100);
    lemma_dec_str_props(x / 100);
    lemma_suffix_name_props(suf);
    let dec = dec_str(x / 100);
    let name = suf.spec_name();
    let ss = spec_display(v, binary);
    let tail = seq!['.'] + seq![digit_char(x % 100 / 10), digit_char(x % 100 % 10)] + seq![' ']
        + name;
    assert(ss =~= dec + tail);
    let j = dec.len() as int;
    assert forall|k: int| 0 <= k < j implies pos_ok(ss, k) by {
        assert(ss[k] == dec[k]);
    }
    assert(ss[j] == '.');
    assert(!pos_ok(ss, j));
    lemma_scan_run(ss, 0, j);
    let t = ss.subrange(j, ss.len() as int);
    assert(t[0] == '.');
    assert(suffix_mult(t) is None);
    assert(spec_parse(ss) == Err::<int, SizeErrorKind>(SizeErrorKind::InvalidSuffix));
}

} // verus!
