use solvomatic::textbox::{render_states, TextBox, TEXT_BOX_WIDTH};

fn lines(text: &[&str]) -> Vec<Vec<char>> {
    text.iter().map(|l| l.chars().collect()).collect()
}

fn text(lines: Vec<Vec<char>>) -> Vec<String> {
    lines.into_iter().map(|l| l.into_iter().collect()).collect()
}

#[test]
fn states_side_by_side() {
    let out = render_states(&vec![lines(&["ab", "c"]), lines(&["xyz"])]);
    assert_eq!(text(out), vec!["    ab    xyz".to_string(), "    c".to_string()]);
}

#[test]
fn wide_states_wrap() {
    let wide = "x".repeat(50);
    let out = render_states(&vec![lines(&[&wide]), lines(&[&wide])]);
    let padded = format!("    {}", wide);
    assert_eq!(text(out), vec![padded.clone(), String::new(), padded]);
}

#[test]
fn no_states_no_lines() {
    assert!(render_states(&vec![]).is_empty());
}

#[test]
fn print_line_pads_to_column() {
    let mut tb = TextBox::new(TEXT_BOX_WIDTH);
    tb.print_line(1, 3, &"ab".chars().collect());
    assert_eq!(text(tb.lines()), vec!["".to_string(), "   ab".to_string()]);
    tb.print_line(1, 2, &"c".chars().collect());
    assert_eq!(text(tb.lines()), vec!["".to_string(), "   abc".to_string()]);
}
