use atrium::mg::{arch_has_68k, is_box, strip_html};

#[test]
fn strips_html_tags_links_entities() {
    let h = "<blockquote>Hi <i>there</i></blockquote> see <a href=\"/games/x\">X</a> &amp; Y &ndash; done<!--break-->";
    let got = strip_html(h);
    assert!(!got.contains('<'));
    assert!(!got.contains("/games/"));
    assert!(got.contains("& Y - done"));
    assert!(got.contains("X"));
}

#[test]
fn box_vs_screenshot() {
    assert!(is_box("Lemmings_box_front.jpg"));
    assert!(is_box("caesar_ii_coverart.png"));
    assert!(is_box("uninvited_reference_back.jpg"));
    assert!(!is_box("monkey_island_2_starting.jpg"));
}

#[test]
fn detects_68k() {
    assert!(arch_has_68k(&vec!["68k".to_string(), "PPC".to_string()]));
    assert!(!arch_has_68k(&vec!["PPC".to_string()]));
    assert!(!arch_has_68k(&vec![]));
}
