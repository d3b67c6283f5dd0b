use wysiwyg::composer_model::ComposerModel;
use wysiwyg::location::Location;

// Test utils

fn utf16(s: &str) -> Vec<u16> {
    s.encode_utf16().collect()
}

fn replace_text(model: &mut ComposerModel, new_text: &str) {
    model.replace_text(&utf16(new_text));
}

fn assert_roundtrips(subject: &str) {
    let output = tx(&mut cm(subject));
    assert_eq!(output, subject);
}

/// Create a ComposerModel from a text representation.
fn cm(text: &str) -> ComposerModel {
    let text: Vec<u16> = utf16(text);

    let find = |haystack: &[u16], needle: &str| -> Option<usize> {
        let needle = needle.encode_utf16().collect::<Vec<u16>>()[0];
        for (i, &ch) in haystack.iter().enumerate() {
            if ch == needle {
                return Some(i);
            }
        }
        None
    };

    let curs = find(&text, "|").expect(&format!(
        "ComposerModel text did not contain a '|' symbol: '{}'",
        String::from_utf16(&text).expect("ComposerModel text was not UTF-16"),
    ));

    let s = find(&text, "{");
    let e = find(&text, "}");

    if let (Some(s), Some(e)) = (s, e) {
        if curs == e + 1 {
            let mut html = text[..s].to_vec();
            html.extend_from_slice(&text[s + 1..e]);
            html.extend_from_slice(&text[curs + 1..]);
            // Cursor after end: foo{bar}|baz
            // The { made an extra codeunit - move the end back 1
            ComposerModel::from(html, s, e - 1)
        } else if curs == s - 1 {
            // Cursor before beginning: foo|{bar}baz
            // The |{ made an extra 2 codeunits - move the end back 2
            let mut html = text[..curs].to_vec();
            html.extend_from_slice(&text[s + 1..e]);
            html.extend_from_slice(&text[e + 1..]);
            ComposerModel::from(html, e - 2, curs)
        } else {
            panic!(
                "The cursor ('|') must always be directly before or after \
                the selection ('{{..}}')! \
                E.g.: 'foo|{{bar}}baz' or 'foo{{bar}}|baz'."
            )
        }
    } else {
        let mut html = text[..curs].to_vec();
        html.extend_from_slice(&text[curs + 1..]);
        ComposerModel::from(html, curs, curs)
    }
}

/// Convert a ComposerModel to a text representation.
fn tx(model: &mut ComposerModel) -> String {
    let mut ret;
    let html = model.html();
    let (start, end) = model.get_selection();
    if start == end {
        let at = start.value as usize;
        ret = String::from_utf16(&html[..at]).unwrap();
        ret.push('|');
        ret += &String::from_utf16(&html[at..]).unwrap();
    } else {
        let (s, e) = model.safe_selection();

        ret = String::from_utf16(&html[..s]).unwrap();
        if start.value < end.value {
            ret.push('{');
        } else {
            ret += "|{";
        }
        ret += &String::from_utf16(&html[s..e]).unwrap();
        if start.value < end.value {
            ret += "}|";
        } else {
            ret.push('}');
        }
        ret += &String::from_utf16(&html[e..]).unwrap()
    }
    ret
}

#[test]
fn typing_a_character_into_an_empty_box_appends_it() {
    let mut model = cm("|");
    replace_text(&mut model, "v");
    assert_eq!(tx(&mut model), "v|");
}

#[test]
fn typing_a_character_at_the_end_appends_it() {
    let mut model = cm("abc|");
    replace_text(&mut model, "d");
    assert_eq!(tx(&mut model), "abcd|");
}

#[test]
fn typing_a_character_in_the_middle_inserts_it() {
    let mut model = cm("|abc");
    replace_text(&mut model, "Z");
    assert_eq!(tx(&mut model), "Z|abc");
}

#[test]
fn selecting_past_the_end_is_harmless() {
    let mut model = cm("|");
    model.select(Location::new(7), Location::new(7));
    replace_text(&mut model, "Z");
    assert_eq!(tx(&mut model), "Z|");
}

#[test]
fn replacing_a_selection_with_a_character() {
    let mut model = cm("abc{def}|ghi");
    replace_text(&mut model, "Z");
    assert_eq!(tx(&mut model), "abcZ|ghi");
}

#[test]
fn replacing_a_backwards_selection_with_a_character() {
    let mut model = cm("abc|{def}ghi");
    replace_text(&mut model, "Z");
    assert_eq!(tx(&mut model), "abcZ|ghi");
}

#[test]
fn typing_a_character_after_a_multi_codepoint_character() {
    // Woman Astronaut:
    // Woman+Dark Skin Tone+Zero Width Joiner+Rocket
    let mut model = cm("\u{1F469}\u{1F3FF}\u{200D}\u{1F680}|");
    replace_text(&mut model, "Z");
    assert_eq!(tx(&mut model), "\u{1F469}\u{1F3FF}\u{200D}\u{1F680}Z|");
}

#[test]
fn backspacing_a_character_at_the_end_deletes_it() {
    let mut model = cm("abc|");
    model.backspace();
    assert_eq!(tx(&mut model), "ab|");
}

#[test]
fn backspacing_a_character_at_the_beginning_does_nothing() {
    let mut model = cm("|abc");
    model.backspace();
    assert_eq!(tx(&mut model), "|abc");
}

#[test]
fn backspacing_a_character_in_the_middle_deletes_it() {
    let mut model = cm("ab|c");
    model.backspace();
    assert_eq!(tx(&mut model), "a|c");
}

#[test]
fn backspacing_a_selection_deletes_it() {
    let mut model = cm("a{bc}|");
    model.backspace();
    assert_eq!(tx(&mut model), "a|");
}

#[test]
fn backspacing_a_backwards_selection_deletes_it() {
    let mut model = cm("a|{bc}");
    model.backspace();
    assert_eq!(tx(&mut model), "a|");
}

#[test]
fn deleting_a_character_at_the_end_does_nothing() {
    let mut model = cm("abc|");
    model.delete();
    assert_eq!(tx(&mut model), "abc|");
}

#[test]
fn deleting_a_character_at_the_beginning_deletes_it() {
    let mut model = cm("|abc");
    model.delete();
    assert_eq!(tx(&mut model), "|bc");
}

#[test]
fn deleting_a_character_in_the_middle_deletes_it() {
    let mut model = cm("a|bc");
    model.delete();
    assert_eq!(tx(&mut model), "a|c");
}

#[test]
fn deleting_a_selection_deletes_it() {
    let mut model = cm("a{bc}|");
    model.delete();
    assert_eq!(tx(&mut model), "a|");
}

#[test]
fn deleting_a_backwards_selection_deletes_it() {
    let mut model = cm("a|{bc}");
    model.delete();
    assert_eq!(tx(&mut model), "a|");
}

#[test]
fn selecting_ascii_characters() {
    let mut model = cm("abcdefgh|");
    model.select(Location::new(0), Location::new(1));
    assert_eq!(tx(&mut model), "{a}|bcdefgh");

    model.select(Location::new(1), Location::new(3));
    assert_eq!(tx(&mut model), "a{bc}|defgh");

    model.select(Location::new(4), Location::new(8));
    assert_eq!(tx(&mut model), "abcd{efgh}|");

    model.select(Location::new(4), Location::new(9));
    assert_eq!(tx(&mut model), "abcd{efgh}|");
}

#[test]
fn selecting_single_utf16_code_unit_characters() {
    let mut model = cm("\u{03A9}\u{03A9}\u{03A9}|");

    model.select(Location::new(0), Location::new(1));
    assert_eq!(tx(&mut model), "{\u{03A9}}|\u{03A9}\u{03A9}");

    model.select(Location::new(0), Location::new(3));
    assert_eq!(tx(&mut model), "{\u{03A9}\u{03A9}\u{03A9}}|");

    model.select(Location::new(1), Location::new(2));
    assert_eq!(tx(&mut model), "\u{03A9}{\u{03A9}}|\u{03A9}");
}

#[test]
fn selecting_multiple_utf16_code_unit_characters() {
    let mut model = cm("\u{1F4A9}\u{1F4A9}\u{1F4A9}|");

    model.select(Location::new(0), Location::new(2));
    assert_eq!(tx(&mut model), "{\u{1F4A9}}|\u{1F4A9}\u{1F4A9}");

    model.select(Location::new(0), Location::new(6));
    assert_eq!(tx(&mut model), "{\u{1F4A9}\u{1F4A9}\u{1F4A9}}|");

    model.select(Location::new(2), Location::new(4));
    assert_eq!(tx(&mut model), "\u{1F4A9}{\u{1F4A9}}|\u{1F4A9}");
}

#[test]
fn selecting_complex_characters() {
    let mut model = cm("aaa\u{03A9}bbb\u{1F469}\u{1F3FF}\u{200D}\u{1F680}ccc|");

    model.select(Location::new(0), Location::new(3));
    assert_eq!(
        tx(&mut model),
        "{aaa}|\u{03A9}bbb\u{1F469}\u{1F3FF}\u{200D}\u{1F680}ccc"
    );

    model.select(Location::new(0), Location::new(4));
    assert_eq!(
        tx(&mut model),
        "{aaa\u{03A9}}|bbb\u{1F469}\u{1F3FF}\u{200D}\u{1F680}ccc"
    );

    model.select(Location::new(7), Location::new(14));
    assert_eq!(
        tx(&mut model),
        "aaa\u{03A9}bbb{\u{1F469}\u{1F3FF}\u{200D}\u{1F680}}|ccc"
    );

    model.select(Location::new(7), Location::new(15));
    assert_eq!(
        tx(&mut model),
        "aaa\u{03A9}bbb{\u{1F469}\u{1F3FF}\u{200D}\u{1F680}c}|cc"
    );
}

#[test]
fn bolding_ascii_adds_strong_tags() {
    let mut model = cm("aa{bb}|cc");
    model.bold();
    assert_eq!(tx(&mut model), "aa{<s}|trong>bb</strong>cc");

    let mut model = cm("aa|{bb}cc");
    model.bold();
    assert_eq!(tx(&mut model), "aa|{<s}trong>bb</strong>cc");
}

#[test]
fn cm_creates_correct_component_model() {
    assert_eq!(cm("|").start.value, 0);
    assert_eq!(cm("|").end.value, 0);
    assert_eq!(cm("|").html(), &[]);

    assert_eq!(cm("a|").start.value, 1);
    assert_eq!(cm("a|").end.value, 1);
    assert_eq!(cm("a|").html(), utf16("a"));

    assert_eq!(cm("a|b").start.value, 1);
    assert_eq!(cm("a|b").end.value, 1);
    assert_eq!(cm("a|b").html(), utf16("ab"));

    assert_eq!(cm("|ab").start.value, 0);
    assert_eq!(cm("|ab").end.value, 0);
    assert_eq!(cm("|ab").html(), utf16("ab"));

    assert_eq!(cm("foo|").start.value, 3);
    assert_eq!(cm("foo|").end.value, 3);
    assert_eq!(cm("foo|").html(), utf16("foo"));

    let t1 = cm("foo|\u{1F4A9}bar");
    assert_eq!(t1.start.value, 3);
    assert_eq!(t1.end.value, 3);
    assert_eq!(t1.html(), utf16("foo\u{1F4A9}bar"));

    let t2 = cm("foo\u{1F4A9}|bar");
    assert_eq!(t2.start.value, 5);
    assert_eq!(t2.end.value, 5);
    assert_eq!(t2.html(), utf16("foo\u{1F4A9}bar"));

    assert_eq!(cm("foo|\u{1F4A9}").start.value, 3);
    assert_eq!(cm("foo|\u{1F4A9}").end.value, 3);
    assert_eq!(cm("foo|\u{1F4A9}").html(), utf16("foo\u{1F4A9}"));

    assert_eq!(cm("foo\u{1F4A9}|").start.value, 5);
    assert_eq!(cm("foo\u{1F4A9}|").end.value, 5);
    assert_eq!(cm("foo\u{1F4A9}|").html(), utf16("foo\u{1F4A9}"));

    assert_eq!(cm("|\u{1F4A9}bar").start.value, 0);
    assert_eq!(cm("|\u{1F4A9}bar").end.value, 0);
    assert_eq!(cm("|\u{1F4A9}bar").html(), utf16("\u{1F4A9}bar"));

    assert_eq!(cm("\u{1F4A9}|bar").start.value, 2);
    assert_eq!(cm("\u{1F4A9}|bar").end.value, 2);
    assert_eq!(cm("\u{1F4A9}|bar").html(), utf16("\u{1F4A9}bar"));

    assert_eq!(cm("{a}|").start.value, 0);
    assert_eq!(cm("{a}|").end.value, 1);
    assert_eq!(cm("{a}|").html(), utf16("a"));

    assert_eq!(cm("|{a}").start.value, 1);
    assert_eq!(cm("|{a}").end.value, 0);
    assert_eq!(cm("|{a}").html(), utf16("a"));

    assert_eq!(cm("abc{def}|ghi").start.value, 3);
    assert_eq!(cm("abc{def}|ghi").end.value, 6);
    assert_eq!(cm("abc{def}|ghi").html(), utf16("abcdefghi"));

    assert_eq!(cm("abc|{def}ghi").start.value, 6);
    assert_eq!(cm("abc|{def}ghi").end.value, 3);
    assert_eq!(cm("abc|{def}ghi").html(), utf16("abcdefghi"));

    let t3 = cm("\u{1F4A9}{def}|ghi");
    assert_eq!(t3.start.value, 2);
    assert_eq!(t3.end.value, 5);
    assert_eq!(t3.html(), utf16("\u{1F4A9}defghi"));

    let t4 = cm("\u{1F4A9}|{def}ghi");
    assert_eq!(t4.start.value, 5);
    assert_eq!(t4.end.value, 2);
    assert_eq!(t4.html(), utf16("\u{1F4A9}defghi"));

    let t5 = cm("abc{d\u{1F4A9}f}|ghi");
    assert_eq!(t5.start.value, 3);
    assert_eq!(t5.end.value, 7);
    assert_eq!(t5.html(), utf16("abcd\u{1F4A9}fghi"));

    let t6 = cm("abc|{d\u{1F4A9}f}ghi");
    assert_eq!(t6.start.value, 7);
    assert_eq!(t6.end.value, 3);
    assert_eq!(t6.html(), utf16("abcd\u{1F4A9}fghi"));

    let t7 = cm("abc{def}|\u{1F4A9}ghi");
    assert_eq!(t7.start.value, 3);
    assert_eq!(t7.end.value, 6);
    assert_eq!(t7.html(), utf16("abcdef\u{1F4A9}ghi"));

    let t8 = cm("abc|{def}\u{1F4A9}ghi");
    assert_eq!(t8.start.value, 6);
    assert_eq!(t8.end.value, 3);
    assert_eq!(t8.html(), utf16("abcdef\u{1F4A9}ghi"));
}

#[test]
fn cm_and_tx_roundtrip() {
    assert_roundtrips("|");
    assert_roundtrips("a|");
    assert_roundtrips("a|b");
    assert_roundtrips("|ab");
    assert_roundtrips("foo|\u{1F4A9}bar");
    assert_roundtrips("foo\u{1F4A9}|bar");
    assert_roundtrips("foo|\u{1F4A9}");
    assert_roundtrips("foo\u{1F4A9}|");
    assert_roundtrips("|\u{1F4A9}bar");
    assert_roundtrips("\u{1F4A9}|bar");
    assert_roundtrips("{a}|");
    assert_roundtrips("|{a}");
    assert_roundtrips("abc{def}|ghi");
    assert_roundtrips("abc|{def}ghi");
    assert_roundtrips("\u{1F4A9}{def}|ghi");
    assert_roundtrips("\u{1F4A9}|{def}ghi");
    assert_roundtrips("abc{d\u{1F4A9}f}|ghi");
    assert_roundtrips("abc|{d\u{1F4A9}f}ghi");
    assert_roundtrips("abc{def}|\u{1F4A9}ghi");
    assert_roundtrips("abc|{def}\u{1F4A9}ghi");
}
