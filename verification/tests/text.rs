use disseqt::text::{find_byte, read_i64, read_usize, trim};

fn lossy(bytes: &[u8]) -> String {
    String::from_utf8_lossy(bytes).into_owned()
}

#[test]
fn finds_the_first_byte() {
    assert_eq!(find_byte(b"a=b=c", b'=', 0), 1);
    assert_eq!(find_byte(b"a=b=c", b'=', 1), 1);
    assert_eq!(find_byte(b"a=b=c", b'=', 2), 3);
    assert_eq!(find_byte(b"a=b=c", b'=', 4), 5);
    assert_eq!(find_byte(b"a=b=c", b'=', 5), 5);
    assert_eq!(find_byte(b"", b'=', 0), 0);
}

#[test]
fn trims_plain_white_space() {
    assert_eq!(trim(b"  key \t"), b"key");
    assert_eq!(trim(b"key"), b"key");
    assert_eq!(trim(b" a b "), b"a b");
    assert_eq!(trim(b"\r\n\x0b\x0c x"), b"x");
    assert_eq!(trim(b"   "), b"");
    assert_eq!(trim(b""), b"");
}

#[test]
fn trims_white_space_of_several_bytes() {
    let spaces = [
        "\u{85}", "\u{a0}", "\u{1680}", "\u{2000}", "\u{2005}", "\u{200a}", "\u{2028}",
        "\u{2029}", "\u{202f}", "\u{205f}", "\u{3000}",
    ];
    for space in spaces {
        let text = format!("{space}{space}a{space}b{space}");
        assert_eq!(trim(text.as_bytes()), format!("a{space}b").as_bytes());
    }
}

#[test]
fn keeps_what_is_no_white_space() {
    // U+200B, U+2060 and U+FEFF are no white space; neither is a lone byte
    // of a white space character.
    let kept = ["\u{200b}", "\u{2060}", "\u{feff}", "\u{b5}s", "\u{1681}"];
    for text in kept {
        assert_eq!(trim(text.as_bytes()), text.as_bytes());
    }
    assert_eq!(trim(b"\xc2"), b"\xc2");
    assert_eq!(trim(b"\x85"), b"\x85");
    assert_eq!(trim(b"\xe2\x80"), b"\xe2\x80");
    assert_eq!(trim(b"\x80\x80"), b"\x80\x80");
}

#[test]
fn trims_as_the_standard_library_does() {
    let texts: Vec<&[u8]> = vec![
        b" a ",
        b"\t\tHORIUNITNAME \r",
        "\u{a0}\u{2003} x y \u{3000}\u{85}".as_bytes(),
        b"\xb5s ",
        b" \xe2\x80 ",
        b"\xe2 \xc2\x85",
        b"\xf0\xe2\x80\x80",
        b"\xc2\xa0\xc2",
        b"\xe2\x80\xa8\xe2\x80\xa7 ",
        b"\xe1\x9a\x80\xe1\x9a\x81",
        b"\xe3\x80\x80\xe3\x80\x81\xe3\x80\x80",
        b" \xff ",
        b"",
    ];
    for text in texts {
        assert_eq!(lossy(trim(text)), lossy(text).trim());
    }
}

#[test]
fn reads_integers() {
    assert_eq!(read_i64(b"0"), Some(0));
    assert_eq!(read_i64(b"42"), Some(42));
    assert_eq!(read_i64(b"-42"), Some(-42));
    assert_eq!(read_i64(b"+42"), Some(42));
    assert_eq!(read_i64(b"007"), Some(7));
    assert_eq!(read_i64(b"-0"), Some(0));
    assert_eq!(read_i64(b"9223372036854775807"), Some(i64::MAX));
    assert_eq!(read_i64(b"-9223372036854775808"), Some(i64::MIN));
    assert_eq!(read_i64(b"0000000000000000000000009"), Some(9));
}

#[test]
fn refuses_what_spells_no_integer() {
    assert_eq!(read_i64(b""), None);
    assert_eq!(read_i64(b"-"), None);
    assert_eq!(read_i64(b"+"), None);
    assert_eq!(read_i64(b"+-1"), None);
    assert_eq!(read_i64(b" 1"), None);
    assert_eq!(read_i64(b"1 "), None);
    assert_eq!(read_i64(b"1.0"), None);
    assert_eq!(read_i64(b"1e3"), None);
    assert_eq!(read_i64(b"0x10"), None);
    assert_eq!(read_i64(b"12a"), None);
    assert_eq!(read_i64(b"9223372036854775808"), None);
    assert_eq!(read_i64(b"-9223372036854775809"), None);
    assert_eq!(read_i64(b"99999999999999999999999"), None);
    assert_eq!(read_i64("\u{0661}".as_bytes()), None);
}

#[test]
fn reads_integers_as_the_standard_library_does() {
    let texts: Vec<&[u8]> = vec![
        b"12", b"-12", b"+12", b"", b"+", b"-", b"--1", b"1_000", b"00", b"-00", b" 5",
        b"5\r", b"9223372036854775807", b"9223372036854775808", b"-9223372036854775808",
        b"-9223372036854775809", b"18446744073709551615", b"18446744073709551616",
        b"\xff1", b"1\xc2\xa0",
    ];
    for text in texts {
        let by_std = std::str::from_utf8(text).ok();
        assert_eq!(read_i64(text), by_std.and_then(|s| s.parse::<i64>().ok()));
        assert_eq!(
            read_usize(text),
            by_std.and_then(|s| s.parse::<usize>().ok())
        );
    }
}

#[test]
fn reads_sample_counts() {
    assert_eq!(read_usize(b"0"), Some(0));
    assert_eq!(read_usize(b"1000"), Some(1000));
    assert_eq!(read_usize(b"+1000"), Some(1000));
    assert_eq!(read_usize(b"-0"), None);
    assert_eq!(read_usize(b"-1"), None);
    assert_eq!(read_usize(b""), None);
    assert_eq!(read_usize(b"12.5"), None);
    assert_eq!(
        read_usize(usize::MAX.to_string().as_bytes()),
        Some(usize::MAX)
    );
    assert_eq!(read_usize(b"340282366920938463463374607431768211456"), None);
}
