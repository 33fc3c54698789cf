use csv::fields::parse_line;
use csv::lines::split_csv;
use csv::reader::{open, parse};

fn check_rows(testdata: &str, expected: &[&[&str]]) {
    let splited = split_csv(testdata);
    assert_eq!(splited.len(), expected.len());
    for (line, expect) in splited.iter().zip(expected.iter()) {
        let row = parse_line(line);
        assert_eq!(row.len(), expect.len());
        for (cell, want) in row.iter().zip(expect.iter()) {
            assert_eq!(cell, want);
        }
    }
}

// The test data must not end in a line feed: each case is also run with one
// appended, and with every line feed written as a carriage return and line feed.
fn rowmatch(testdata: &str, expected: &[&[&str]]) {
    check_rows(testdata, expected);
    check_rows(&format!("{}\n", testdata), expected);
    check_rows(&testdata.replace("\n", "\r\n"), expected);
}

fn owned(rows: &[&[&str]]) -> Vec<Vec<String>> {
    rows.iter().map(|r| r.iter().map(|c| c.to_string()).collect()).collect()
}

#[test]
fn test_parse() {
    let rows = parse("9404,あやめ公園,0,ｱﾔﾒｺｳｴﾝ\n4778,一本松(埼玉県),0,ｲｯﾎﾟﾝﾏﾂ\n9482,羽田空港第１ビル,0,ﾊﾈﾀﾞｸｳｺｳﾀﾞｲｲﾁﾋﾞﾙ");
    assert_eq!(
        rows,
        owned(&[
            &["9404", "あやめ公園", "0", "ｱﾔﾒｺｳｴﾝ"],
            &["4778", "一本松(埼玉県)", "0", "ｲｯﾎﾟﾝﾏﾂ"],
            &["9482", "羽田空港第１ビル", "0", "ﾊﾈﾀﾞｸｳｺｳﾀﾞｲｲﾁﾋﾞﾙ"],
        ])
    );
}

#[test]
fn test_multiline_1() {
    rowmatch(
        "\naaa,bbbb,\"ccc\ndddd\",\"fffff\"\n111,222,333,444,555",
        &[&["aaa", "bbbb", "ccc\ndddd", "fffff"], &["111", "222", "333", "444", "555"]],
    );
}

#[test]
fn test_multiline_2() {
    rowmatch("jjj,\"kk\nlll", &[&["jjj", "kk\nlll"]]);
}

#[test]
fn test_complex_blank_quote() {
    rowmatch(
        "\"aaa\",\"b\nbb\",\"ccc\",zzz,\"y\"\"Y\"\"y\",xxx,\"\"",
        &[&["aaa", "b\nbb", "ccc", "zzz", "y\"Y\"y", "xxx", ""]],
    );
}

#[test]
fn test_simple_number() {
    rowmatch("1,2,3", &[&["1", "2", "3"]]);
}

#[test]
fn test_multibyte() {
    rowmatch("9404,あやめ公園,0,ｱﾔﾒｺｳｴﾝ,", &[&["9404", "あやめ公園", "0", "ｱﾔﾒｺｳｴﾝ", ""]]);
}

#[test]
fn test_simple() {
    rowmatch("a,b,c,d\n1,2,3,4", &[&["a", "b", "c", "d"], &["1", "2", "3", "4"]]);
}

#[test]
fn test_trailing_comma() {
    rowmatch("a,b,c,d\n1,2,3,4,", &[&["a", "b", "c", "d"], &["1", "2", "3", "4", ""]]);
}

#[test]
fn test_leading_comma() {
    rowmatch("a,b,c,d\n,1,2,3,4", &[&["a", "b", "c", "d"], &["", "1", "2", "3", "4"]]);
}

#[test]
fn test_quote_simple() {
    rowmatch("\"Hello\",\"There\"\na,b,\"c\",d", &[&["Hello", "There"], &["a", "b", "c", "d"]]);
}

#[test]
fn test_quote_nested() {
    rowmatch(
        "\"Hello\",\"There is a \"\"fly\"\" in my soup\"\na,b,\"c\",d",
        &[&["Hello", "There is a \"fly\" in my soup"], &["a", "b", "c", "d"]],
    );
}

#[test]
fn test_quote_with_comma() {
    rowmatch("\"1,2\"", &[&["1,2"]]);
}

#[test]
fn test_quote_with_other_comma() {
    rowmatch("1,2,3,\"a,b,c\"", &[&["1", "2", "3", "a,b,c"]]);
}

#[test]
fn test_blank_line() {
    rowmatch("\n\n", &[]);
}

#[test]
fn test_open() {
    let text = String::from("9404,あやめ公園,0,ｱﾔﾒｺｳｴﾝ\n4778,一本松(埼玉県),0,ｲｯﾎﾟﾝﾏﾂ\n9482,羽田空港第１ビル,0,ﾊﾈﾀﾞｸｳｺｳﾀﾞｲｲﾁﾋﾞﾙ\n");
    let rows = open::<String>(Ok(text)).unwrap();
    assert_eq!(
        rows,
        owned(&[
            &["9404", "あやめ公園", "0", "ｱﾔﾒｺｳｴﾝ"],
            &["4778", "一本松(埼玉県)", "0", "ｲｯﾎﾟﾝﾏﾂ"],
            &["9482", "羽田空港第１ビル", "0", "ﾊﾈﾀﾞｸｳｺｳﾀﾞｲｲﾁﾋﾞﾙ"],
        ])
    );
}
