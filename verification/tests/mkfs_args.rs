use fs_ext4::mkfs_args::{parse_args_from, parse_size, parse_uuid, ArgError, Opts, Parsed};

fn words(argv: &[&str]) -> Vec<Vec<u8>> {
    argv.iter().map(|s| s.as_bytes().to_vec()).collect()
}

fn parse(argv: &[&str]) -> Result<Opts, ArgError> {
    match parse_args_from(&words(argv)) {
        Ok(Parsed::Run(o)) => Ok(o),
        Ok(other) => panic!("expected options, got {other:?}"),
        Err(e) => Err(e),
    }
}

fn device<'a>(opts: &Opts, argv: &[&'a str]) -> Option<&'a str> {
    opts.device.map(|i| argv[i])
}

fn warned<'a>(opts: &Opts, argv: &[&'a str]) -> Vec<&'a str> {
    opts.warnings.iter().map(|&i| argv[i]).collect()
}

const IGNORED_FLAGS_WITH_ARG: &[&str] = &["-m", "-N", "-i", "-E", "-O", "-T"];

#[test]
fn dash_c_is_boolean_and_leaves_the_device_alone() {
    let argv = ["-c", "/tmp/disk.img"];
    let opts = parse(&argv).expect("parse");
    assert_eq!(device(&opts, &argv), Some("/tmp/disk.img"));
    assert_eq!(opts.warnings.len(), 1, "one ignored-flag warning");
    assert_eq!(argv[opts.warnings[0]], "-c");
}

#[test]
fn argument_taking_ignored_flags_consume_their_value() {
    for &flag in IGNORED_FLAGS_WITH_ARG {
        let argv = [flag, "1", "/tmp/disk.img"];
        let opts = parse(&argv).expect("parse");
        assert_eq!(
            device(&opts, &argv),
            Some("/tmp/disk.img"),
            "{flag} should have eaten its own value, not the device"
        );
        assert_eq!(opts.warnings, vec![0]);
    }
}

#[test]
fn argument_taking_ignored_flag_without_a_value_is_an_error() {
    let err = parse(&["-m"]).expect_err("should reject");
    assert_eq!(err, ArgError::NeedsValue(0));
}

#[test]
fn out_of_range_block_size_is_rejected_at_parse_time() {
    for bad in ["3000", "512", "131072", "0"] {
        let err = parse(&["-b", bad, "/tmp/disk.img"]).expect_err("out-of-range block size should be rejected");
        assert_eq!(err, ArgError::BadBlockSize(bad.parse().unwrap()), "{bad}");
    }
}

#[test]
fn in_range_block_sizes_parse() {
    for good in ["1024", "4096", "65536"] {
        let opts = parse(&["-b", good, "/tmp/disk.img"]).expect("parse");
        assert_eq!(opts.block_size, Some(good.parse().unwrap()));
    }
}

#[test]
fn quiet_is_independent_of_flag_order() {
    let first = ["-q", "-m", "1", "/tmp/disk.img"];
    let last = ["-m", "1", "-q", "/tmp/disk.img"];
    let early = parse(&first).expect("parse");
    let late = parse(&last).expect("parse");
    assert!(early.quiet && late.quiet);
    assert_eq!(warned(&early, &first), warned(&late, &last));
    assert_eq!(early.warnings.len(), 1);
}

#[test]
fn unknown_flags_are_still_rejected() {
    let err = parse(&["-Z", "/tmp/disk.img"]).expect_err("should reject");
    assert_eq!(err, ArgError::UnknownFlag(0));
}

#[test]
fn help_and_version_are_answered_wherever_they_stand() {
    for flag in ["-h", "--help"] {
        assert!(matches!(parse_args_from(&words(&["-q", flag])), Ok(Parsed::Help)));
    }
    for flag in ["-V", "--version"] {
        assert!(matches!(parse_args_from(&words(&[flag, "-Z"])), Ok(Parsed::Version)));
    }
}

#[test]
fn every_option_lands_in_its_place() {
    let argv = [
        "-L",
        "data",
        "-b",
        "2048",
        "-U",
        "00112233-4455-6677-8899-aAbBcCdDeEfF",
        "-F",
        "-n",
        "--create-size",
        "64M",
        "disk.img",
    ];
    let opts = parse(&argv).expect("parse");
    assert_eq!(opts.label.map(|i| argv[i]), Some("data"));
    assert_eq!(opts.block_size, Some(2048));
    assert_eq!(
        opts.uuid,
        Some([
            0x00, 0x11, 0x22, 0x33, 0x44, 0x55, 0x66, 0x77, 0x88, 0x99, 0xAA, 0xBB, 0xCC, 0xDD, 0xEE, 0xFF
        ])
    );
    assert!(opts.force && opts.dry_run && !opts.quiet);
    assert_eq!(opts.create_size, Some(64 * 1024 * 1024));
    assert_eq!(device(&opts, &argv), Some("disk.img"));
    assert!(opts.warnings.is_empty());
}

#[test]
fn a_second_device_is_one_too_many() {
    assert_eq!(parse(&["a.img", "b.img"]).unwrap_err(), ArgError::ExtraPositional(1));
}

#[test]
fn a_label_has_at_most_sixteen_bytes() {
    assert!(parse(&["-L", "sixteen bytes ok"]).is_ok());
    assert_eq!(parse(&["-L", "seventeen bytes!!"]).unwrap_err(), ArgError::LabelTooLong(17));
    assert_eq!(parse(&["-b", "4k"]).unwrap_err(), ArgError::BadNumber(1));
}

#[test]
fn sizes_take_units_of_1024() {
    assert_eq!(parse_size(b"33554432"), Ok(33_554_432));
    assert_eq!(parse_size(b" 64M "), Ok(64 << 20));
    assert_eq!(parse_size(b"64mb"), Ok(64 << 20));
    assert_eq!(parse_size(b"1G"), Ok(1 << 30));
    assert_eq!(parse_size(b"1024K"), Ok(1 << 20));
    assert_eq!(parse_size(b"2T"), Ok(2 << 40));
    assert_eq!(parse_size(b"+7"), Ok(7));
    assert_eq!(parse_size(b"512B"), Ok(512));
}

#[test]
fn sizes_that_are_none_are_refused() {
    assert_eq!(parse_size(b"  "), Err(ArgError::EmptySize));
    assert_eq!(parse_size(b"12X"), Err(ArgError::SizeSuffix));
    assert_eq!(parse_size(b"B"), Err(ArgError::SizeSuffix));
    assert_eq!(parse_size(b"M"), Err(ArgError::SizeNumber));
    assert_eq!(parse_size(b"1x2"), Err(ArgError::SizeNumber));
    assert_eq!(parse_size(b"18446744073709551616"), Err(ArgError::SizeNumber));
    assert_eq!(parse_size(b"16777216T"), Err(ArgError::SizeOverflow));
}

#[test]
fn identifiers_that_are_none_are_refused() {
    assert_eq!(parse_uuid(b"0011"), Err(ArgError::UuidLength(4)));
    assert_eq!(
        parse_uuid(b"0011223344556677889gaabbccddeeff"),
        Err(ArgError::UuidDigit(18))
    );
}
