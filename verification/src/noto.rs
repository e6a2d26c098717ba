//! The font list of the dictionary's web page: which characters it shows,
//! which fonts it loads and in what order, and the style sheet for them.

use crate::text::{chars_of, has_infix, contains_str, push_str, str_eq, string_of};
use vstd::prelude::*;

verus! {

/// Whether `s` is in strictly increasing order.
pub open spec fn strictly_increasing(s: Seq<char>) -> bool {
    forall|i: int, j: int| 0 <= i < j < s.len() ==> #[trigger] s[i] < #[trigger] s[j]
}

/// The distinct characters of a text, in increasing order of code point.
pub fn distinct_sorted_chars(text: &str) -> (r: String)
    ensures
        strictly_increasing(r@),
        forall|c: char| r@.contains(c) <==> text@.contains(c),
{
    let cs = chars_of(text);
    let mut out: Vec<char> = Vec::new();
    let mut i: usize = 0;
    while i < cs.len()
        invariant
            i <= cs@.len(),
            cs@ == text@,
            strictly_increasing(out@),
            forall|c: char| out@.contains(c) <==> cs@.take(i as int).contains(c),
        decreases cs.len() - i,
    {
        let c = cs[i];
        let mut pos: usize = 0;
        while pos < out.len() && out[pos] < c
            invariant
                pos <= out@.len(),
                forall|k: int| 0 <= k < pos ==> #[trigger] out@[k] < c,
            decreases out.len() - pos,
        {
            pos = pos + 1;
        }
        let ghost before = out@;
        let ghost seen = cs@.take(i as int);
        assert(cs@.take(i + 1) =~= seen.push(c));
        assert forall|x: char| seen.push(c).contains(x) <==> (seen.contains(x) || x == c) by {
            if seen.push(c).contains(x) && x != c {
                let k = choose|k: int| 0 <= k < seen.push(c).len() && #[trigger] seen.push(c)[k]
                    == x;
                assert(seen[k] == x);
            }
            if seen.contains(x) {
                let k = choose|k: int| 0 <= k < seen.len() && #[trigger] seen[k] == x;
                assert(seen.push(c)[k] == x);
            }
            if x == c {
                assert(seen.push(c)[seen.len() as int] == c);
            }
        }
        if pos < out.len() && out[pos] == c {
            assert(before.contains(c) && before[pos as int] == c);
        } else {
            out.insert(pos, c);
            assert(out@ == before.insert(pos as int, c));
            assert forall|a: int, b: int| 0 <= a < b < out@.len() implies #[trigger] out@[a]
                < #[trigger] out@[b] by {
                if b < pos {
                    assert(out@[a] == before[a] && out@[b] == before[b]);
                } else if b == pos {
                    assert(out@[a] == before[a]);
                } else if a == pos {
                    assert(out@[b] == before[b - 1]);
                    assert(before[pos as int] != c);
                    assert(!(before[pos as int] < c));
                    if b - 1 > pos {
                        assert(before[pos as int] < before[b - 1]);
                    }
                } else if a < pos {
                    assert(out@[a] == before[a] && out@[b] == before[b - 1]);
                } else {
                    assert(out@[a] == before[a - 1] && out@[b] == before[b - 1]);
                }
            }
            assert forall|x: char| out@.contains(x) <==> (before.contains(x) || x == c) by {
                if out@.contains(x) {
                    let k = choose|k: int| 0 <= k < out@.len() && #[trigger] out@[k] == x;
                    if k < pos {
                        assert(before[k] == x);
                    } else if k > pos {
                        assert(before[k - 1] == x);
                    }
                }
                if before.contains(x) {
                    let k = choose|k: int| 0 <= k < before.len() && #[trigger] before[k] == x;
                    if k < pos {
                        assert(out@[k] == x);
                    } else {
                        assert(out@[k + 1] == x);
                    }
                }
                if x == c {
                    assert(out@[pos as int] == c);
                }
            }
        }
        assert forall|x: char| out@.contains(x) <==> cs@.take(i + 1).contains(x) by {
            assert(before.contains(x) <==> seen.contains(x));
            assert(seen.push(c).contains(x) <==> (seen.contains(x) || x == c));
        }
        i = i + 1;
    }
    assert(cs@.take(cs@.len() as int) =~= cs@);
    string_of(out.as_slice())
}

/// The fonts that are not loaded.
pub open spec fn excluded_font(name: Seq<char>) -> bool {
    name == "Noto Color Emoji"@ || name == "Noto Serif Tangut"@
}

/// Whether a font is one of the CJK fonts, which load last.
pub open spec fn cjk_font(name: Seq<char>) -> bool {
    has_infix(name, "CJK"@)
}

/// The positions among the first `k` fonts of those kept whose CJK-ness is
/// `cjk`.
pub open spec fn picked_upto(names: Seq<Seq<char>>, cjk: bool, k: int) -> Seq<usize>
    decreases k,
{
    if k <= 0 {
        Seq::empty()
    } else if !excluded_font(names[k - 1]) && cjk_font(names[k - 1]) == cjk {
        picked_upto(names, cjk, k - 1).push((k - 1) as usize)
    } else {
        picked_upto(names, cjk, k - 1)
    }
}

/// The names of a list of fonts.
pub open spec fn name_views(names: Seq<String>) -> Seq<Seq<char>> {
    names.map_values(|n: String| n@)
}

fn picked(names: &[String], cjk: bool) -> (r: Vec<usize>)
    ensures
        r@ == picked_upto(name_views(names@), cjk, names@.len() as int),
{
    let ghost nv = name_views(names@);
    let mut out: Vec<usize> = Vec::new();
    let mut k: usize = 0;
    while k < names.len()
        invariant
            k <= names@.len(),
            nv == name_views(names@),
            out@ == picked_upto(nv, cjk, k as int),
        decreases names.len() - k,
    {
        let name = names[k].as_str();
        let excluded = str_eq(name, "Noto Color Emoji") || str_eq(name, "Noto Serif Tangut");
        let is_cjk = contains_str(chars_of(name).as_slice(), "CJK");
        if !excluded && is_cjk == cjk {
            out.push(k);
        }
        k = k + 1;
    }
    out
}

/// The order in which the fonts named `names` load: the non-CJK fonts, then
/// the CJK ones, each in their given order, without the colour emoji and
/// the Tangut serif font.  Each font is given by its position in `names`.
pub fn font_order(names: &[String]) -> (r: Vec<usize>)
    ensures
        r@ == picked_upto(name_views(names@), false, names@.len() as int) + picked_upto(
            name_views(names@),
            true,
            names@.len() as int,
        ),
{
    let mut first = picked(names, false);
    let ghost a = first@;
    let mut last = picked(names, true);
    let ghost b = last@;
    first.append(&mut last);
    assert(first@ =~= a + b);
    first
}

/// A font of the page: the file it is loaded from and its family name.
pub struct FontFace {
    pub filename: String,
    pub fontname: String,
}

/// The `@font-face` rule of a font.
pub open spec fn face_rule(filename: Seq<char>, fontname: Seq<char>) -> Seq<char> {
    "@font-face {\r\n    font-family: \""@ + fontname + "\";\r\n    src: url(\"fonts/"@ + filename
        + "\");\r\n"@ + (if fontname == "Noto Sans"@ {
        "    font-display: swap;\r\n"@
    } else {
        Seq::empty()
    }) + (if fontname == "Noto Sans Symbols 2"@ || fontname == "Noto Sans CJK HK"@ {
        "    unicode-range: 0000-269f, 26a1-10ffff;\r\n"@
    } else {
        Seq::empty()
    }) + "}\r\n"@
}

/// The rules of the first `k` fonts.
pub open spec fn rules_upto(fonts: Seq<FontFace>, k: int) -> Seq<char>
    decreases k,
{
    if k <= 0 {
        Seq::empty()
    } else {
        rules_upto(fonts, k - 1) + face_rule(fonts[k - 1].filename@, fonts[k - 1].fontname@)
    }
}

/// The quoted family names of the first `k` fonts, separated by commas.
pub open spec fn family_list(fonts: Seq<FontFace>, k: int) -> Seq<char>
    decreases k,
{
    if k <= 0 {
        Seq::empty()
    } else if k == 1 {
        "\""@ + fonts[0].fontname@ + "\""@
    } else {
        family_list(fonts, k - 1) + ", \""@ + fonts[k - 1].fontname@ + "\""@
    }
}

/// The style sheet for the fonts: a rule for each, then the sans-serif
/// family list with the fonts first.
pub open spec fn style_sheet(fonts: Seq<FontFace>) -> Seq<char> {
    rules_upto(fonts, fonts.len() as int) + ":root {\r\n    --sans: "@ + family_list(
        fonts,
        fonts.len() as int,
    ) + ", ui-sans-serif, sans-serif;\r\n}"@
}

proof fn lemma_infix_within(a: Seq<char>, l: Seq<char>, b: Seq<char>, needle: Seq<char>, off: int)
    requires
        0 <= off,
        off + needle.len() <= l.len(),
        l.subrange(off, off + needle.len()) == needle,
    ensures
        has_infix(a + l + b, needle),
{
    let i = a.len() + off;
    assert((a + l + b).subrange(i, i + needle.len()) =~= needle);
}

proof fn lemma_rule_in_rules(fonts: Seq<FontFace>, k: int, m: int)
    requires
        0 <= k < m <= fonts.len(),
    ensures
        rules_upto(fonts, k).len() + face_rule(fonts[k].filename@, fonts[k].fontname@).len() <= rules_upto(fonts, m).len(),
        rules_upto(fonts, m).subrange(
            rules_upto(fonts, k).len() as int,
            (rules_upto(fonts, k).len() + face_rule(fonts[k].filename@, fonts[k].fontname@).len()) as int,
        ) == face_rule(fonts[k].filename@, fonts[k].fontname@),
    decreases m,
{
    let start = rules_upto(fonts, k).len() as int;
    let rule = face_rule(fonts[k].filename@, fonts[k].fontname@);
    if m == k + 1 {
        assert(rules_upto(fonts, m).subrange(start, start + rule.len()) =~= rule);
    } else {
        lemma_rule_in_rules(fonts, k, m - 1);
        let prev = rules_upto(fonts, m - 1);
        assert(rules_upto(fonts, m).subrange(start, start + rule.len()) =~= prev.subrange(start, start + rule.len()));
    }
}

/// The style sheet holds the rule of every font it is given, whole; and the
/// rule of Noto Sans Symbols 2 or Noto Sans CJK HK, whatever its file,
/// keeps the font off U+26A0 with `unicode-range: 0000-269f, 26a1-10ffff;`.
pub proof fn law_symbol_fonts_skip_warning_sign(fonts: Seq<FontFace>, k: int)
    requires
        0 <= k < fonts.len(),
    ensures
        has_infix(style_sheet(fonts), face_rule(fonts[k].filename@, fonts[k].fontname@)),
        fonts[k].fontname@ == "Noto Sans Symbols 2"@ || fonts[k].fontname@ == "Noto Sans CJK HK"@
            ==> has_infix(
            face_rule(fonts[k].filename@, fonts[k].fontname@),
            "unicode-range: 0000-269f, 26a1-10ffff;"@,
        ),
{
    let n = fonts.len() as int;
    let rule = face_rule(fonts[k].filename@, fonts[k].fontname@);
    lemma_rule_in_rules(fonts, k, n);
    let start = rules_upto(fonts, k).len() as int;
    let rules = rules_upto(fonts, n);
    assert(rule.subrange(0, rule.len() as int) =~= rule);
    let rest = style_sheet(fonts).subrange(rules.len() as int, style_sheet(fonts).len() as int);
    assert(style_sheet(fonts) =~= rules + rest);
    assert(rules =~= rules.subrange(0, start) + rule + rules.subrange(start + rule.len(), rules.len() as int));
    lemma_infix_within(rules.subrange(0, start), rule, rules.subrange(start + rule.len(), rules.len() as int) + rest, rule, 0);
    assert(rules.subrange(0, start) + rule + (rules.subrange(start + rule.len(), rules.len() as int) + rest) =~= style_sheet(fonts));
    let name = fonts[k].fontname@;
    if name == "Noto Sans Symbols 2"@ || name == "Noto Sans CJK HK"@ {
        reveal_strlit("Noto Sans");
        reveal_strlit("Noto Sans Symbols 2");
        reveal_strlit("Noto Sans CJK HK");
        reveal_strlit("    unicode-range: 0000-269f, 26a1-10ffff;\r\n");
        reveal_strlit("unicode-range: 0000-269f, 26a1-10ffff;");
        assert(name != "Noto Sans"@);
        let f = fonts[k].filename@;
        let a = "@font-face {\r\n    font-family: \""@ + name + "\";\r\n    src: url(\"fonts/"@ + f + "\");\r\n"@
            + Seq::<char>::empty();
        let l = "    unicode-range: 0000-269f, 26a1-10ffff;\r\n"@;
        let needle = "unicode-range: 0000-269f, 26a1-10ffff;"@;
        assert(l.subrange(4, (4 + needle.len()) as int) =~= needle);
        assert(rule == a + l + "}\r\n"@);
        lemma_infix_within(a, l, "}\r\n"@, needle, 4);
    }
}

/// The rule of Noto Sans, whatever its file, lets the page show text before
/// the font arrives, with `font-display: swap;`.
pub proof fn law_main_font_swaps(filename: Seq<char>)
    ensures
        has_infix(face_rule(filename, "Noto Sans"@), "font-display: swap;"@),
{
    reveal_strlit("Noto Sans");
    reveal_strlit("Noto Sans Symbols 2");
    reveal_strlit("Noto Sans CJK HK");
    reveal_strlit("    font-display: swap;\r\n");
    reveal_strlit("font-display: swap;");
    let name = "Noto Sans"@;
    assert(name.len() == 9 && "Noto Sans Symbols 2"@.len() == 19 && "Noto Sans CJK HK"@.len() == 16);
    assert(name != "Noto Sans Symbols 2"@ && name != "Noto Sans CJK HK"@);
    let a = "@font-face {\r\n    font-family: \""@ + name + "\";\r\n    src: url(\"fonts/"@ + filename + "\");\r\n"@;
    let l = "    font-display: swap;\r\n"@;
    let needle = "font-display: swap;"@;
    assert(l.subrange(4, (4 + needle.len()) as int) =~= needle);
    assert(face_rule(filename, name) == a + l + (Seq::<char>::empty() + "}\r\n"@));
    lemma_infix_within(a, l, Seq::<char>::empty() + "}\r\n"@, needle, 4);
}

/// The style sheet that loads the given fonts, in order.
pub fn font_css(fonts: &[FontFace]) -> (r: String)
    ensures
        r@ == style_sheet(fonts@),
{
    let mut out: Vec<char> = Vec::new();
    let mut k: usize = 0;
    while k < fonts.len()
        invariant
            k <= fonts@.len(),
            out@ == rules_upto(fonts@, k as int),
        decreases fonts.len() - k,
    {
        let f = &fonts[k];
        let name = f.fontname.as_str();
        push_str(&mut out, "@font-face {\r\n    font-family: \"");
        push_str(&mut out, name);
        push_str(&mut out, "\";\r\n    src: url(\"fonts/");
        push_str(&mut out, f.filename.as_str());
        push_str(&mut out, "\");\r\n");
        if str_eq(name, "Noto Sans") {
            push_str(&mut out, "    font-display: swap;\r\n");
        }
        if str_eq(name, "Noto Sans Symbols 2") || str_eq(name, "Noto Sans CJK HK") {
            push_str(&mut out, "    unicode-range: 0000-269f, 26a1-10ffff;\r\n");
        }
        push_str(&mut out, "}\r\n");
        assert(out@ =~= rules_upto(fonts@, k + 1));
        k = k + 1;
    }
    let ghost rules = out@;
    push_str(&mut out, ":root {\r\n    --sans: ");
    let ghost head = out@;
    let mut j: usize = 0;
    while j < fonts.len()
        invariant
            j <= fonts@.len(),
            out@ == head + family_list(fonts@, j as int),
        decreases fonts.len() - j,
    {
        if j > 0 {
            push_str(&mut out, ", \"");
        } else {
            push_str(&mut out, "\"");
        }
        push_str(&mut out, fonts[j].fontname.as_str());
        push_str(&mut out, "\"");
        assert(out@ =~= head + family_list(fonts@, j + 1));
        j = j + 1;
    }
    push_str(&mut out, ", ui-sans-serif, sans-serif;\r\n}");
    assert(out@ =~= style_sheet(fonts@));
    string_of(out.as_slice())
}

} // verus!
