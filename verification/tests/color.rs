use glib::color::hex_channels;

fn by_std(value: &str) -> Option<(u8, u8, u8)> {
    if !value.starts_with("#") || value.len() != 7 {
        return None;
    }
    let without_prefix = value.trim_start_matches("#");
    if without_prefix.len() < 2 || !without_prefix.is_char_boundary(2) {
        return None;
    }
    let (r, rest) = without_prefix.split_at(2);
    if rest.len() < 2 || !rest.is_char_boundary(2) {
        return None;
    }
    let (g, b) = rest.split_at(2);
    Some((
        u8::from_str_radix(r, 16).ok()?,
        u8::from_str_radix(g, 16).ok()?,
        u8::from_str_radix(b, 16).ok()?,
    ))
}

#[test]
fn six_digits_give_three_channels() {
    assert_eq!(hex_channels("#87ceeb"), Some((0x87, 0xce, 0xeb)));
    assert_eq!(hex_channels("#000000"), Some((0, 0, 0)));
    assert_eq!(hex_channels("#ffffff"), Some((255, 255, 255)));
    assert_eq!(hex_channels("#FFFFFF"), Some((255, 255, 255)));
    assert_eq!(hex_channels("#0a0B0c"), Some((10, 11, 12)));
    assert_eq!(hex_channels("#102030"), Some((16, 32, 48)));
}

#[test]
fn what_is_no_colour_gives_nothing() {
    for value in [
        "", "#", "87ceeb", "#87cee", "#87ceebb", "87ceeb#", "#87ceeg", "#87 eeb", "#-1-1-1",
        "#######", "####def", "###cdef", "#0x0x0x", "#ééé", "#é0000", "#éé00", "＃87ceeb",
        "#87ce\u{e9}",
    ] {
        assert_eq!(hex_channels(value), None, "value {:?}", value);
    }
}

#[test]
fn plus_signs_and_a_second_number_sign_are_read_as_the_standard_library_reads_them() {
    assert_eq!(hex_channels("#+a+b+c"), Some((10, 11, 12)));
    assert_eq!(hex_channels("##abcde"), Some((0xab, 0xcd, 0xe)));
    assert_eq!(hex_channels("##+a+bc"), Some((10, 11, 12)));
    assert_eq!(hex_channels("##abcd+"), None);
    assert_eq!(hex_channels("#++abcd"), None);
    assert_eq!(hex_channels("#a+bcde"), None);
}

#[test]
fn channels_agree_with_the_standard_library_on_every_text_of_seven_signs() {
    let signs = ['#', '+', '-', '0', 'a', 'F', 'g'];
    let mut indices = [0usize; 7];
    let mut count = 0;
    loop {
        let value: String = indices.iter().map(|i| signs[*i]).collect();
        assert_eq!(hex_channels(&value), by_std(&value), "value {:?}", value);
        count += 1;
        let mut place = 0;
        while place < 7 {
            indices[place] += 1;
            if indices[place] < signs.len() {
                break;
            }
            indices[place] = 0;
            place += 1;
        }
        if place == 7 {
            break;
        }
    }
    assert_eq!(count, 823543);
}

#[test]
fn channels_agree_with_the_standard_library_on_other_lengths_and_signs() {
    for value in [
        "#abc", "#abcdefg", "#12345", "#é12345", "#12é45", "#1234é", "#é2345", "é#12345", "#９９９９９９",
        "# 12345", "#12345 ", "#_12345", "#1_2345", "#۱۲۳۴۵۶", "#abcdeſ", "#ABCDEK",
    ] {
        assert_eq!(hex_channels(value), by_std(value), "value {:?}", value);
    }
}
