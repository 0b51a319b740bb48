//! The formatter's command line.
//!
//! Arguments are bytes. What is read out of them refers to them by their place
//! on the line, so that the caller can quote them.
use crate::mkfs::{is_valid_block_size, log_of};
use vstd::prelude::*;

verus! {

/// What an argument is.
#[derive(Debug, Clone, Copy, PartialEq, Eq, Structural)]
pub enum Flag {
    Help,
    Version,
    Label,
    BlockSize,
    Uuid,
    Force,
    DryRun,
    Quiet,
    CreateSize,
    /// Accepted, and ignored with the argument behind it.
    IgnoredWithValue,
    /// Accepted, and ignored.
    Ignored,
    Unknown,
    /// No flag at all.
    Positional,
}

/// Why a command line was not understood. Each number but a length or a block
/// size is the place of an argument.
#[derive(Debug, Clone, Copy, PartialEq, Eq, Structural)]
pub enum ArgError {
    /// The flag takes an argument and has none.
    NeedsValue(usize),
    /// The label has this many bytes.
    LabelTooLong(usize),
    BadNumber(usize),
    BadBlockSize(u32),
    /// The identifier has this many digits.
    UuidLength(usize),
    /// The identifier has something else than a digit near this one.
    UuidDigit(usize),
    EmptySize,
    SizeSuffix,
    SizeNumber,
    SizeOverflow,
    UnknownFlag(usize),
    ExtraPositional(usize),
}

/// What a command line asks for.
#[derive(Debug)]
pub struct Opts {
    /// Where the label is.
    pub label: Option<usize>,
    pub block_size: Option<u32>,
    pub uuid: Option<[u8; 16]>,
    pub force: bool,
    pub dry_run: bool,
    pub quiet: bool,
    /// The size of the file to make, where there is none.
    pub create_size: Option<u64>,
    /// Where the device's path is.
    pub device: Option<usize>,
    /// Where the flags are that were ignored.
    pub warnings: Vec<usize>,
}

/// What a command line asks for, as a value.
#[verifier::ext_equal]
pub struct OptsView {
    pub label: Option<usize>,
    pub block_size: Option<u32>,
    pub uuid: Option<Seq<u8>>,
    pub force: bool,
    pub dry_run: bool,
    pub quiet: bool,
    pub create_size: Option<u64>,
    pub device: Option<usize>,
    pub warnings: Seq<usize>,
}

impl View for Opts {
    type V = OptsView;

    open spec fn view(&self) -> OptsView {
        OptsView {
            label: self.label,
            block_size: self.block_size,
            uuid: match self.uuid {
                Some(u) => Some(u@),
                None => None,
            },
            force: self.force,
            dry_run: self.dry_run,
            quiet: self.quiet,
            create_size: self.create_size,
            device: self.device,
            warnings: self.warnings@,
        }
    }
}

/// A command line that was understood.
#[derive(Debug)]
pub enum Parsed {
    Help,
    Version,
    Run(Opts),
}

/// A command line that was understood, as a value.
pub enum ParsedView {
    Help,
    Version,
    Run(OptsView),
}

impl View for Parsed {
    type V = ParsedView;

    open spec fn view(&self) -> ParsedView {
        match *self {
            Parsed::Help => ParsedView::Help,
            Parsed::Version => ParsedView::Version,
            Parsed::Run(o) => ParsedView::Run(o@),
        }
    }
}

// -- flags ------------------------------------------------------------------

/// `--help`.
pub open spec fn help_text() -> Seq<u8> {
    seq![0x2Du8, 0x2Du8, 0x68u8, 0x65u8, 0x6Cu8, 0x70u8]
}

/// `--version`.
pub open spec fn version_text() -> Seq<u8> {
    seq![0x2Du8, 0x2Du8, 0x76u8, 0x65u8, 0x72u8, 0x73u8, 0x69u8, 0x6Fu8, 0x6Eu8]
}

/// `--create-size`.
pub open spec fn create_size_text() -> Seq<u8> {
    seq![
        0x2Du8, 0x2Du8, 0x63u8, 0x72u8, 0x65u8, 0x61u8, 0x74u8, 0x65u8, 0x2Du8, 0x73u8, 0x69u8, 0x7Au8, 0x65u8,
    ]
}

/// The flag that a letter stands for.
pub open spec fn letter_flag(c: u8) -> Flag {
    if c == 0x68 {
        Flag::Help
    } else if c == 0x56 {
        Flag::Version
    } else if c == 0x4C {
        Flag::Label
    } else if c == 0x62 {
        Flag::BlockSize
    } else if c == 0x55 {
        Flag::Uuid
    } else if c == 0x46 {
        Flag::Force
    } else if c == 0x6E {
        Flag::DryRun
    } else if c == 0x71 {
        Flag::Quiet
    } else if c == 0x6D || c == 0x4E || c == 0x69 || c == 0x45 || c == 0x4F || c == 0x54 {
        Flag::IgnoredWithValue
    } else if c == 0x63 {
        Flag::Ignored
    } else {
        Flag::Unknown
    }
}

/// What an argument is.
pub open spec fn flag_of(arg: Seq<u8>) -> Flag {
    if arg.len() == 0 || arg[0] != 0x2D {
        Flag::Positional
    } else if arg.len() == 2 {
        letter_flag(arg[1])
    } else if arg == help_text() {
        Flag::Help
    } else if arg == version_text() {
        Flag::Version
    } else if arg == create_size_text() {
        Flag::CreateSize
    } else {
        Flag::Unknown
    }
}

fn classify(arg: &[u8]) -> (r: Flag)
    ensures
        r == flag_of(arg@),
{
    if arg.len() == 0 || arg[0] != 0x2D {
        return Flag::Positional;
    }
    if arg.len() == 2 {
        let c: u8 = arg[1];
        return if c == 0x68 {
            Flag::Help
        } else if c == 0x56 {
            Flag::Version
        } else if c == 0x4C {
            Flag::Label
        } else if c == 0x62 {
            Flag::BlockSize
        } else if c == 0x55 {
            Flag::Uuid
        } else if c == 0x46 {
            Flag::Force
        } else if c == 0x6E {
            Flag::DryRun
        } else if c == 0x71 {
            Flag::Quiet
        } else if c == 0x6D || c == 0x4E || c == 0x69 || c == 0x45 || c == 0x4F || c == 0x54 {
            Flag::IgnoredWithValue
        } else if c == 0x63 {
            Flag::Ignored
        } else {
            Flag::Unknown
        };
    }
    let help: Vec<u8> = vec![0x2Du8, 0x2Du8, 0x68u8, 0x65u8, 0x6Cu8, 0x70u8];
    assert(help@ =~= help_text());
    let version: Vec<u8> = vec![0x2Du8, 0x2Du8, 0x76u8, 0x65u8, 0x72u8, 0x73u8, 0x69u8, 0x6Fu8, 0x6Eu8];
    assert(version@ =~= version_text());
    let create: Vec<u8> = vec![
        0x2Du8, 0x2Du8, 0x63u8, 0x72u8, 0x65u8, 0x61u8, 0x74u8, 0x65u8, 0x2Du8, 0x73u8, 0x69u8, 0x7Au8, 0x65u8,
    ];
    assert(create@ =~= create_size_text());
    if crate::bytes::same_bytes(arg, &help) {
        Flag::Help
    } else if crate::bytes::same_bytes(arg, &version) {
        Flag::Version
    } else if crate::bytes::same_bytes(arg, &create) {
        Flag::CreateSize
    } else {
        Flag::Unknown
    }
}

// -- numbers ----------------------------------------------------------------

pub open spec fn is_digit(b: u8) -> bool {
    0x30 <= b <= 0x39
}

/// The value of some digits.
pub open spec fn digits_value(s: Seq<u8>) -> int
    decreases s.len(),
{
    if s.len() == 0 {
        0
    } else {
        10 * digits_value(s.drop_last()) + (s.last() - 0x30)
    }
}

/// A number without the plus sign it may begin with.
pub open spec fn unsigned_text(s: Seq<u8>) -> Seq<u8> {
    if s.len() > 0 && s[0] == 0x2B {
        s.drop_first()
    } else {
        s
    }
}

/// The number that some text is, if it is one and not above `most`.
pub open spec fn number_in(s: Seq<u8>, most: int) -> Option<int> {
    let t = unsigned_text(s);
    if t.len() == 0 || !(forall|i: int| 0 <= i < t.len() ==> is_digit(#[trigger] t[i])) || digits_value(t)
        > most {
        None
    } else {
        Some(digits_value(t))
    }
}

proof fn lemma_digits_grow(s: Seq<u8>, k: int)
    requires
        0 <= k <= s.len(),
        forall|i: int| 0 <= i < s.len() ==> is_digit(#[trigger] s[i]),
    ensures
        0 <= digits_value(s.take(k)) <= digits_value(s),
    decreases s.len() - k,
{
    if k < s.len() {
        lemma_digits_grow(s, k + 1);
        assert(s.take(k + 1).drop_last() =~= s.take(k));
        assert(is_digit(s[k]));
        lemma_digits_sign(s.take(k));
    } else {
        assert(s.take(k) =~= s);
        lemma_digits_sign(s);
    }
}

proof fn lemma_digits_sign(s: Seq<u8>)
    requires
        forall|i: int| 0 <= i < s.len() ==> is_digit(#[trigger] s[i]),
    ensures
        digits_value(s) >= 0,
    decreases s.len(),
{
    if s.len() > 0 {
        let t = s.drop_last();
        assert forall|i: int| 0 <= i < t.len() implies is_digit(#[trigger] t[i]) by {
            assert(t[i] == s[i]);
        }
        lemma_digits_sign(t);
        assert(is_digit(s[s.len() - 1]));
    }
}

fn parse_number(s: &[u8], most: u64) -> (r: Option<u64>)
    ensures
        match r {
            Some(n) => number_in(s@, most as int) == Some(n as int),
            None => number_in(s@, most as int) is None,
        },
{
    let from: usize = if s.len() > 0 && s[0] == 0x2B {
        1
    } else {
        0
    };
    let ghost t = unsigned_text(s@);
    assert(t =~= s@.skip(from as int));
    if s.len() == from {
        return None;
    }
    let mut n: u64 = 0;
    let mut i: usize = from;
    assert(t.take(0) =~= Seq::<u8>::empty());
    while i < s.len()
        invariant
            from <= i <= s@.len(),
            from <= 1,
            t == unsigned_text(s@),
            t == s@.skip(from as int),
            forall|k: int| 0 <= k < i - from ==> is_digit(#[trigger] t[k]),
            n == digits_value(t.take(i - from)),
            n <= most,
        decreases s@.len() - i,
    {
        let b: u8 = s[i];
        assert(t[i - from] == b);
        if b < 0x30 || b > 0x39 {
            return None;
        }
        let d: u64 = (b - 0x30) as u64;
        proof {
            assert(t.take(i - from + 1).drop_last() =~= t.take(i - from));
            assert(t.take(i - from + 1).last() == b);
        }
        if n > most / 10 || 10 * (n as u128) + d as u128 > most as u128 {
            proof {
                if forall|k: int| 0 <= k < t.len() ==> is_digit(#[trigger] t[k]) {
                    lemma_digits_grow(t, i - from + 1);
                }
            }
            return None;
        }
        n = 10 * n + d;
        i += 1;
    }
    assert(t.take(i - from) =~= t);
    Some(n)
}

// -- sizes ------------------------------------------------------------------

pub open spec fn is_blank(b: u8) -> bool {
    b == 0x20 || 0x09 <= b <= 0x0D
}

/// Text without the blanks around it.
pub open spec fn trimmed(s: Seq<u8>) -> Seq<u8>
    decreases s.len(),
{
    if s.len() == 0 {
        s
    } else if is_blank(s[0]) {
        trimmed(s.drop_first())
    } else if is_blank(s.last()) {
        trimmed(s.drop_last())
    } else {
        s
    }
}

/// How many bytes a size's letter stands for; zero for none that is known.
pub open spec fn unit_of(c: u8) -> int {
    if c == 0x4B || c == 0x6B {
        1024
    } else if c == 0x4D || c == 0x6D {
        0x10_0000
    } else if c == 0x47 || c == 0x67 {
        0x4000_0000
    } else if c == 0x54 || c == 0x74 {
        0x100_0000_0000
    } else {
        0
    }
}

/// A size without the `B` it may end in.
pub open spec fn bare_size(s: Seq<u8>) -> Seq<u8> {
    if s.len() > 0 && (s.last() == 0x42 || s.last() == 0x62) {
        s.drop_last()
    } else {
        s
    }
}

/// The size that some text is: a number, with a unit of 1024s or without.
pub open spec fn size_in(text: Seq<u8>) -> Result<u64, ArgError> {
    let t = trimmed(text);
    let s = bare_size(t);
    if t.len() == 0 {
        Err(ArgError::EmptySize)
    } else if s.len() == 0 || (unit_of(s.last()) == 0 && !is_digit(s.last())) {
        Err(ArgError::SizeSuffix)
    } else {
        let (num, unit) = if unit_of(s.last()) != 0 {
            (s.drop_last(), unit_of(s.last()))
        } else {
            (s, 1)
        };
        match number_in(num, u64::MAX as int) {
            None => Err(ArgError::SizeNumber),
            Some(n) => if n * unit > u64::MAX {
                Err(ArgError::SizeOverflow)
            } else {
                Ok((n * unit) as u64)
            },
        }
    }
}

/// Read a size like `64M`, `1G`, `1024K` or `33554432`.
pub fn parse_size(text: &[u8]) -> (r: Result<u64, ArgError>)
    ensures
        r == size_in(text@),
{
    let mut from: usize = 0;
    let mut to: usize = text.len();
    assert(text@.subrange(0, to as int) =~= text@);
    while from < to && (text[from] == 0x20 || (0x09 <= text[from] && text[from] <= 0x0D))
        invariant
            from <= to,
            to == text@.len(),
            trimmed(text@) == trimmed(text@.subrange(from as int, to as int)),
        decreases to - from,
    {
        assert(text@.subrange(from as int, to as int).drop_first() =~= text@.subrange(
            from + 1,
            to as int,
        ));
        from += 1;
    }
    while from < to && (text[to - 1] == 0x20 || (0x09 <= text[to - 1] && text[to - 1] <= 0x0D))
        invariant
            from <= to <= text@.len(),
            from < text@.len() ==> !is_blank(text@[from as int]),
            trimmed(text@) == trimmed(text@.subrange(from as int, to as int)),
        decreases to - from,
    {
        assert(text@.subrange(from as int, to as int).drop_last() =~= text@.subrange(from as int, to - 1));
        to -= 1;
    }
    let ghost t = text@.subrange(from as int, to as int);
    assert(trimmed(text@) == t);
    if from == to {
        return Err(ArgError::EmptySize);
    }
    if text[to - 1] == 0x42 || text[to - 1] == 0x62 {
        to -= 1;
    }
    let ghost s = text@.subrange(from as int, to as int);
    assert(s =~= bare_size(t));
    if from == to {
        return Err(ArgError::SizeSuffix);
    }
    let c: u8 = text[to - 1];
    assert(c == s.last());
    let unit: u64 = if c == 0x4B || c == 0x6B {
        1024
    } else if c == 0x4D || c == 0x6D {
        0x10_0000
    } else if c == 0x47 || c == 0x67 {
        0x4000_0000
    } else if c == 0x54 || c == 0x74 {
        0x100_0000_0000
    } else if 0x30 <= c && c <= 0x39 {
        1
    } else {
        return Err(ArgError::SizeSuffix);
    };
    let end: usize = if unit == 1 {
        to
    } else {
        to - 1
    };
    let num: Vec<u8> = crate::bytes::copy_range(text, from, end);
    assert(unit_of(c) != 0 ==> num@ =~= s.drop_last());
    assert(unit_of(c) == 0 ==> num@ =~= s);
    match parse_number(&num, u64::MAX) {
        None => Err(ArgError::SizeNumber),
        Some(n) => match n.checked_mul(unit) {
            Some(total) => Ok(total),
            None => Err(ArgError::SizeOverflow),
        },
    }
}

// -- identifiers ------------------------------------------------------------

/// The value of a hexadecimal digit, if it is one.
pub open spec fn hex_value(b: u8) -> Option<u8> {
    if 0x30 <= b <= 0x39 {
        Some((b - 0x30) as u8)
    } else if 0x61 <= b <= 0x66 {
        Some((b - 0x61 + 10) as u8)
    } else if 0x41 <= b <= 0x46 {
        Some((b - 0x41 + 10) as u8)
    } else {
        None
    }
}

/// Text without its dashes.
pub open spec fn undashed(s: Seq<u8>) -> Seq<u8>
    decreases s.len(),
{
    if s.len() == 0 {
        Seq::empty()
    } else {
        let before = undashed(s.drop_last());
        if s.last() == 0x2D {
            before
        } else {
            before.push(s.last())
        }
    }
}

/// The first pair of digits from pair `i` on, of `t`, that is not two digits.
pub open spec fn bad_pair(t: Seq<u8>, i: int) -> Option<int>
    decreases 16 - i,
{
    if i >= 16 {
        None
    } else if hex_value(t[2 * i]) is None || hex_value(t[2 * i + 1]) is None {
        Some(i)
    } else {
        bad_pair(t, i + 1)
    }
}

/// The identifier that some text is: 32 digits, with dashes or without.
pub open spec fn uuid_in(text: Seq<u8>) -> Result<Seq<u8>, ArgError> {
    let t = undashed(text);
    if t.len() != 32 {
        Err(ArgError::UuidLength(t.len() as usize))
    } else {
        match bad_pair(t, 0) {
            Some(i) => Err(ArgError::UuidDigit((2 * i) as usize)),
            None => Ok(
                Seq::new(16, |i: int| (16 * hex_value(t[2 * i])->0 + hex_value(t[2 * i + 1])->0) as u8),
            ),
        }
    }
}

fn hex_digit(b: u8) -> (r: Option<u8>)
    ensures
        r == hex_value(b),
        r matches Some(v) ==> v < 16,
{
    if 0x30 <= b && b <= 0x39 {
        Some(b - 0x30)
    } else if 0x61 <= b && b <= 0x66 {
        Some(b - 0x61 + 10)
    } else if 0x41 <= b && b <= 0x46 {
        Some(b - 0x41 + 10)
    } else {
        None
    }
}

/// Read an identifier, with dashes or without.
pub fn parse_uuid(text: &[u8]) -> (r: Result<[u8; 16], ArgError>)
    ensures
        match r {
            Ok(u) => uuid_in(text@) == Ok::<Seq<u8>, ArgError>(u@),
            Err(e) => uuid_in(text@) == Err::<Seq<u8>, ArgError>(e),
        },
{
    let mut t: Vec<u8> = Vec::new();
    let mut i: usize = 0;
    assert(text@.take(0) =~= Seq::<u8>::empty());
    assert(t@ =~= Seq::<u8>::empty());
    while i < text.len()
        invariant
            i <= text@.len(),
            t@ == undashed(text@.take(i as int)),
        decreases text@.len() - i,
    {
        proof {
            assert(text@.take(i + 1).drop_last() =~= text@.take(i as int));
        }
        if text[i] != 0x2D {
            t.push(text[i]);
        }
        i += 1;
    }
    assert(text@.take(i as int) =~= text@);
    if t.len() != 32 {
        return Err(ArgError::UuidLength(t.len()));
    }
    let mut out: [u8; 16] = [0u8; 16];
    let ghost want = Seq::new(
        16,
        |i: int| (16 * hex_value(t@[2 * i])->0 + hex_value(t@[2 * i + 1])->0) as u8,
    );
    let mut k: usize = 0;
    while k < 16
        invariant
            k <= 16,
            t@.len() == 32,
            t@ == undashed(text@),
            want == Seq::new(
                16,
                |i: int| (16 * hex_value(t@[2 * i])->0 + hex_value(t@[2 * i + 1])->0) as u8,
            ),
            bad_pair(t@, 0) == bad_pair(t@, k as int),
            forall|j: int| 0 <= j < k ==> out@[j] == want[j],
        decreases 16 - k,
    {
        let (hi, lo): (Option<u8>, Option<u8>) = (hex_digit(t[2 * k]), hex_digit(t[2 * k + 1]));
        match (hi, lo) {
            (Some(h), Some(l)) => {
                out[k] = 16 * h + l;
            },
            _ => {
                return Err(ArgError::UuidDigit(2 * k));
            },
        }
        k += 1;
    }
    assert(out@ =~= want);
    Ok(out)
}

// -- the line ---------------------------------------------------------------

/// Nothing asked for yet.
pub open spec fn no_opts() -> OptsView {
    OptsView {
        label: None,
        block_size: None,
        uuid: None,
        force: false,
        dry_run: false,
        quiet: false,
        create_size: None,
        device: None,
        warnings: Seq::empty(),
    }
}

/// What is asked for with the value of a flag that takes one.
pub open spec fn with_value(o: OptsView, flag: Flag, at: usize, value: Seq<u8>) -> Result<OptsView, ArgError> {
    if flag == Flag::Label {
        if value.len() > 16 {
            Err(ArgError::LabelTooLong(value.len() as usize))
        } else {
            Ok(OptsView { label: Some((at + 1) as usize), ..o })
        }
    } else if flag == Flag::BlockSize {
        match number_in(value, u32::MAX as int) {
            None => Err(ArgError::BadNumber((at + 1) as usize)),
            Some(n) => if log_of(n as u32) is None {
                Err(ArgError::BadBlockSize(n as u32))
            } else {
                Ok(OptsView { block_size: Some(n as u32), ..o })
            },
        }
    } else if flag == Flag::Uuid {
        match uuid_in(value) {
            Err(e) => Err(e),
            Ok(u) => Ok(OptsView { uuid: Some(u), ..o }),
        }
    } else if flag == Flag::CreateSize {
        match size_in(value) {
            Err(e) => Err(e),
            Ok(n) => Ok(OptsView { create_size: Some(n), ..o }),
        }
    } else {
        Ok(OptsView { warnings: o.warnings.push(at), ..o })
    }
}

/// Whether a flag takes the argument behind it.
pub open spec fn takes_value(flag: Flag) -> bool {
    flag == Flag::Label || flag == Flag::BlockSize || flag == Flag::Uuid || flag == Flag::CreateSize || flag
        == Flag::IgnoredWithValue
}

/// What is asked for with an argument that stands alone.
pub open spec fn with_plain(o: OptsView, flag: Flag, at: usize) -> Result<OptsView, ArgError> {
    if flag == Flag::Force {
        Ok(OptsView { force: true, ..o })
    } else if flag == Flag::DryRun {
        Ok(OptsView { dry_run: true, ..o })
    } else if flag == Flag::Quiet {
        Ok(OptsView { quiet: true, ..o })
    } else if flag == Flag::Ignored {
        Ok(OptsView { warnings: o.warnings.push(at), ..o })
    } else if flag == Flag::Positional {
        if o.device is Some {
            Err(ArgError::ExtraPositional(at))
        } else {
            Ok(OptsView { device: Some(at), ..o })
        }
    } else {
        Err(ArgError::UnknownFlag(at))
    }
}

/// What a command line asks for from argument `at` on, on top of `o`. Help or
/// the version, once asked for, is all there is to it.
pub open spec fn parsed_from(args: Seq<Seq<u8>>, at: int, o: OptsView) -> Result<ParsedView, ArgError>
    decreases args.len() - at,
{
    if at >= args.len() {
        Ok(ParsedView::Run(o))
    } else {
        let flag = flag_of(args[at]);
        if flag == Flag::Help {
            Ok(ParsedView::Help)
        } else if flag == Flag::Version {
            Ok(ParsedView::Version)
        } else if takes_value(flag) {
            if at + 1 >= args.len() {
                Err(ArgError::NeedsValue(at as usize))
            } else {
                match with_value(o, flag, at as usize, args[at + 1]) {
                    Err(e) => Err(e),
                    Ok(next) => parsed_from(args, at + 2, next),
                }
            }
        } else {
            match with_plain(o, flag, at as usize) {
                Err(e) => Err(e),
                Ok(next) => parsed_from(args, at + 1, next),
            }
        }
    }
}

/// Arguments as values.
pub open spec fn args_view(args: Seq<Vec<u8>>) -> Seq<Seq<u8>> {
    Seq::new(args.len(), |i: int| args[i]@)
}

impl Opts {
    fn take_value(&mut self, flag: Flag, at: usize, value: &[u8]) -> (r: Result<(), ArgError>)
        requires
            at < usize::MAX,
        ensures
            match r {
                Ok(_) => with_value(old(self)@, flag, at, value@) == Ok::<OptsView, ArgError>(final(self)@),
                Err(e) => with_value(old(self)@, flag, at, value@) == Err::<OptsView, ArgError>(e),
            },
    {
        if flag == Flag::Label {
            if value.len() > 16 {
                return Err(ArgError::LabelTooLong(value.len()));
            }
            self.label = Some(at + 1);
        } else if flag == Flag::BlockSize {
            match parse_number(value, u32::MAX as u64) {
                None => {
                    return Err(ArgError::BadNumber(at + 1));
                },
                Some(n) => {
                    if !is_valid_block_size(n as u32) {
                        return Err(ArgError::BadBlockSize(n as u32));
                    }
                    self.block_size = Some(n as u32);
                },
            }
        } else if flag == Flag::Uuid {
            match parse_uuid(value) {
                Err(e) => {
                    return Err(e);
                },
                Ok(u) => {
                    self.uuid = Some(u);
                },
            }
        } else if flag == Flag::CreateSize {
            match parse_size(value) {
                Err(e) => {
                    return Err(e);
                },
                Ok(n) => {
                    self.create_size = Some(n);
                },
            }
        } else {
            self.warnings.push(at);
        }
        Ok(())
    }

    fn take_plain(&mut self, flag: Flag, at: usize) -> (r: Result<(), ArgError>)
        ensures
            match r {
                Ok(_) => with_plain(old(self)@, flag, at) == Ok::<OptsView, ArgError>(final(self)@),
                Err(e) => with_plain(old(self)@, flag, at) == Err::<OptsView, ArgError>(e),
            },
    {
        if flag == Flag::Force {
            self.force = true;
        } else if flag == Flag::DryRun {
            self.dry_run = true;
        } else if flag == Flag::Quiet {
            self.quiet = true;
        } else if flag == Flag::Ignored {
            self.warnings.push(at);
        } else if flag == Flag::Positional {
            if self.device.is_some() {
                return Err(ArgError::ExtraPositional(at));
            }
            self.device = Some(at);
        } else {
            return Err(ArgError::UnknownFlag(at));
        }
        Ok(())
    }
}

/// Read a command line.
pub fn parse_args_from(args: &[Vec<u8>]) -> (r: Result<Parsed, ArgError>)
    ensures
        match r {
            Ok(p) => parsed_from(args_view(args@), 0, no_opts()) == Ok::<ParsedView, ArgError>(p@),
            Err(e) => parsed_from(args_view(args@), 0, no_opts()) == Err::<ParsedView, ArgError>(e),
        },
{
    let mut o = Opts {
        label: None,
        block_size: None,
        uuid: None,
        force: false,
        dry_run: false,
        quiet: false,
        create_size: None,
        device: None,
        warnings: Vec::new(),
    };
    assert(o@ =~= no_opts());
    let mut at: usize = 0;
    while at < args.len()
        invariant
            at <= args@.len(),
            parsed_from(args_view(args@), 0, no_opts()) == parsed_from(args_view(args@), at as int, o@),
        decreases args@.len() - at,
    {
        let flag: Flag = classify(&args[at]);
        assert(args_view(args@)[at as int] == args@[at as int]@);
        if flag == Flag::Help {
            return Ok(Parsed::Help);
        }
        if flag == Flag::Version {
            return Ok(Parsed::Version);
        }
        if flag == Flag::Label || flag == Flag::BlockSize || flag == Flag::Uuid || flag == Flag::CreateSize
            || flag == Flag::IgnoredWithValue {
            if args.len() - at < 2 {
                return Err(ArgError::NeedsValue(at));
            }
            assert(args_view(args@)[at + 1] == args@[at + 1]@);
            if let Err(e) = o.take_value(flag, at, &args[at + 1]) {
                return Err(e);
            }
            at = at + 2;
        } else {
            if let Err(e) = o.take_plain(flag, at) {
                return Err(e);
            }
            at = at + 1;
        }
    }
    Ok(Parsed::Run(o))
}

} // verus!
