use geotable::text::{fields, file_name, lines};

fn std_lines(text: &str) -> Vec<String> {
    text.lines().map(|line| line.to_string()).collect()
}

fn std_fields(line: &str) -> Vec<String> {
    line.split(';').map(|field| field.to_string()).collect()
}

#[test]
fn lines_of_empty_text_are_none() {
    assert_eq!(lines(""), Vec::<String>::new());
}

#[test]
fn final_line_feed_adds_no_line() {
    assert_eq!(lines("a\nb\n"), vec!["a", "b"]);
    assert_eq!(lines("a\nb"), vec!["a", "b"]);
}

#[test]
fn blank_lines_are_kept() {
    assert_eq!(lines("a\n\nb\n\n"), vec!["a", "", "b", ""]);
    assert_eq!(lines("\n"), vec![""]);
}

#[test]
fn carriage_return_before_line_feed_is_dropped() {
    assert_eq!(lines("a\r\nb\r\n"), vec!["a", "b"]);
    assert_eq!(lines("a\r\r\nb"), vec!["a\r", "b"]);
}

#[test]
fn lone_carriage_return_is_kept() {
    assert_eq!(lines("a\rb\nc\r"), vec!["a\rb", "c\r"]);
}

#[test]
fn lines_agree_with_the_standard_library() {
    let samples = [
        "",
        "\n",
        "\r",
        "\r\n",
        "\n\n",
        "a",
        "a\n",
        "a\r",
        "a\r\n",
        "a\n\r",
        "a\n\r\n",
        "lng;lat;name\n1;2;x\n",
        "lng;lat;name\r\n1;2;x\r\n3;4;y",
        "\u{e9}t\u{e9}\n\u{1f600}\r\n\u{4e2d}\u{6587}",
        "one\n\ntwo\n\n\nthree",
        "x\r\r\r\n\r\ny\r",
    ];
    for text in samples {
        assert_eq!(lines(text), std_lines(text), "lines of {:?}", text);
    }
}

#[test]
fn fields_of_empty_line_are_one_empty_field() {
    assert_eq!(fields(""), vec![""]);
}

#[test]
fn separators_at_the_ends_open_empty_fields() {
    assert_eq!(fields(";a;"), vec!["", "a", ""]);
    assert_eq!(fields(";;"), vec!["", "", ""]);
}

#[test]
fn fields_agree_with_the_standard_library() {
    let samples = [
        "",
        ";",
        ";;",
        "a",
        "a;b",
        "a;;b",
        ";a",
        "a;",
        "1.0;2.0;alpha;5",
        "caf\u{e9};na\u{ef}ve;\u{1f600}",
        " a ; b ",
        "a,b;c:d",
    ];
    for line in samples {
        assert_eq!(fields(line), std_fields(line), "fields of {:?}", line);
    }
}

#[test]
fn file_name_is_the_last_component() {
    assert_eq!(file_name("/home/user/data/cities.csv"), "cities.csv");
    assert_eq!(file_name("cities.csv"), "cities.csv");
    assert_eq!(file_name("relative/dir/points.csv"), "points.csv");
}

#[test]
fn file_name_of_a_directory_path_is_empty() {
    assert_eq!(file_name("/home/user/"), "");
    assert_eq!(file_name(""), "");
    assert_eq!(file_name("/"), "");
}

#[test]
fn random_texts_agree_with_the_standard_library() {
    let alphabet = ['a', ';', '\n', '\r', '1', '\u{e9}', ' ', '/'];
    let mut state: u64 = 0xd1b54a32d192ed03;
    for _ in 0..5000 {
        state ^= state << 13;
        state ^= state >> 7;
        state ^= state << 17;
        let len = (state % 12) as usize;
        let mut bits = state >> 8;
        let mut text = String::new();
        for _ in 0..len {
            text.push(alphabet[(bits % 8) as usize]);
            bits /= 8;
        }
        assert_eq!(lines(&text), std_lines(&text), "lines of {:?}", text);
        assert_eq!(fields(&text), std_fields(&text), "fields of {:?}", text);
        assert_eq!(file_name(&text), text.split('/').last().unwrap(), "name of {:?}", text);
    }
}
