use toakue::noto::{distinct_sorted_chars, font_css, font_order, FontFace};

#[test]
fn characters_of_the_dictionary() {
    assert_eq!(distinct_sorted_chars("banana"), "abn");
    assert_eq!(distinct_sorted_chars("z\u{e9}a \u{e9}"), " az\u{e9}");
    assert_eq!(distinct_sorted_chars(""), "");
}

#[test]
fn order_of_fonts() {
    let names: Vec<String> = ["Noto Sans CJK JP", "Noto Sans", "Noto Color Emoji", "Noto Serif", "Noto Serif Tangut"]
        .iter()
        .map(|s| s.to_string())
        .collect();
    assert_eq!(font_order(&names), vec![1, 3, 0]);
    assert!(font_order(&[]).is_empty());
}

#[test]
fn style_sheet_for_fonts() {
    let fonts = vec![
        FontFace { filename: "NotoSans.ttf".to_string(), fontname: "Noto Sans".to_string() },
        FontFace { filename: "Sym.ttf".to_string(), fontname: "Noto Sans Symbols 2".to_string() },
        FontFace { filename: "Other.ttf".to_string(), fontname: "Other".to_string() },
    ];
    let expected = "@font-face {\r\n    font-family: \"Noto Sans\";\r\n    src: url(\"fonts/NotoSans.ttf\");\r\n    font-display: swap;\r\n}\r\n\
@font-face {\r\n    font-family: \"Noto Sans Symbols 2\";\r\n    src: url(\"fonts/Sym.ttf\");\r\n    unicode-range: 0000-269f, 26a1-10ffff;\r\n}\r\n\
@font-face {\r\n    font-family: \"Other\";\r\n    src: url(\"fonts/Other.ttf\");\r\n}\r\n\
:root {\r\n    --sans: \"Noto Sans\", \"Noto Sans Symbols 2\", \"Other\", ui-sans-serif, sans-serif;\r\n}";
    assert_eq!(font_css(&fonts), expected);
    assert_eq!(font_css(&[]), ":root {\r\n    --sans: , ui-sans-serif, sans-serif;\r\n}");
}
