use jsp_lsp::model::{Position, Severity, TextRange};
use jsp_lsp::translator::translate;

fn range(line: usize, from: usize, to: usize) -> TextRange {
    TextRange { start: Position { line, character: from }, end: Position { line, character: to } }
}

#[test]
fn unclosed_opener_is_reported_at_column_zero() {
    let out = translate("<% int x;");
    assert_eq!(out.diagnostics.len(), 1);
    assert_eq!(out.diagnostics[0].message, "Unclosed <% tag");
    assert_eq!(out.diagnostics[0].range, range(0, 0, 2));
    assert_eq!(out.diagnostics[0].severity, Severity::Warning);
    assert_eq!(out.document.blocks().len(), 0);
    assert_eq!(out.document.text(), "");
}

#[test]
fn unopened_closer_then_unclosed_opener() {
    let out = translate("%> <% int x;");
    assert_eq!(out.diagnostics.len(), 2);
    assert_eq!(out.diagnostics[0].message, "Unopened %> tag");
    assert_eq!(out.diagnostics[0].range, range(0, 0, 2));
    assert_eq!(out.diagnostics[1].message, "Unclosed <% tag");
    assert_eq!(out.diagnostics[1].range, range(0, 3, 5));
    assert_eq!(out.document.blocks().len(), 0);
}

#[test]
fn balanced_text_has_no_diagnostics() {
    let text = "<html>\n<% int x = 1; %>\n<p><% x++;\n   x--; %></p>\n<%%>\n</html>\n";
    let out = translate(text);
    assert!(out.diagnostics.is_empty());
    let blocks = out.document.blocks();
    assert_eq!(blocks.len(), 3);
    assert_eq!(blocks[0].text, " int x = 1; ");
    assert_eq!((blocks[0].jsp_start_line, blocks[0].jsp_start_col), (1, 0));
    assert_eq!((blocks[0].java_start_line, blocks[0].java_line_count), (0, 1));
    assert_eq!(blocks[1].text, " x++;\n   x--; ");
    assert_eq!((blocks[1].jsp_start_line, blocks[1].jsp_start_col), (2, 3));
    assert_eq!((blocks[1].java_start_line, blocks[1].java_line_count), (1, 2));
    assert_eq!(blocks[2].text, "");
    assert_eq!((blocks[2].jsp_start_line, blocks[2].jsp_start_col), (4, 0));
    assert_eq!((blocks[2].java_start_line, blocks[2].java_line_count), (3, 1));
    assert_eq!(out.document.text(), " int x = 1; \n x++;\n   x--; \n\n");
    assert_eq!(out.document.text().lines().count(), 4);
    assert_eq!(out.document.line_count(), 4);
    assert_eq!(out.document.uri(), "jsp-virtual:///Scriptlets.java");
}

#[test]
fn body_that_ends_in_a_line_feed_gets_no_second_one() {
    let out = translate("<%\nint a;\nint b;\n%>");
    let blocks = out.document.blocks();
    assert_eq!(blocks.len(), 1);
    assert_eq!(blocks[0].text, "\nint a;\nint b;\n");
    assert_eq!(blocks[0].java_line_count, 3);
    assert_eq!(out.document.text(), "\nint a;\nint b;\n");
    assert_eq!(out.document.line_count(), 3);
}

#[test]
fn repeated_delimiters_on_one_line() {
    let out = translate("<% a %><% b %> %> <% c %>");
    assert_eq!(out.diagnostics.len(), 1);
    assert_eq!(out.diagnostics[0].message, "Unopened %> tag");
    assert_eq!(out.diagnostics[0].range, range(0, 15, 17));
    let blocks = out.document.blocks();
    assert_eq!(blocks.len(), 3);
    assert_eq!(blocks[0].text, " a ");
    assert_eq!(blocks[1].text, " b ");
    assert_eq!(blocks[2].text, " c ");
    assert_eq!(blocks[1].jsp_start_col, 7);
    assert_eq!(blocks[2].jsp_start_col, 18);
    assert_eq!((blocks[2].java_start_line, blocks[2].java_line_count), (2, 1));
}

#[test]
fn closer_takes_the_opener_met_last() {
    let out = translate("<% a\n<% b %>\nc");
    assert_eq!(out.diagnostics.len(), 1);
    assert_eq!(out.diagnostics[0].message, "Unclosed <% tag");
    assert_eq!(out.diagnostics[0].range, range(0, 0, 2));
    let blocks = out.document.blocks();
    assert_eq!(blocks.len(), 1);
    assert_eq!(blocks[0].text, " b ");
    assert_eq!((blocks[0].jsp_start_line, blocks[0].jsp_start_col), (1, 0));
}

#[test]
fn no_byte_belongs_to_two_delimiters() {
    let out = translate("<%>");
    assert_eq!(out.diagnostics.len(), 1);
    assert_eq!(out.diagnostics[0].message, "Unclosed <% tag");
    assert_eq!(out.document.blocks().len(), 0);
}

#[test]
fn columns_count_bytes_and_text_is_verbatim() {
    let out = translate("\u{e9}\u{e9}<% String s = \"\u{65e5}\u{672c}\"; %>");
    assert!(out.diagnostics.is_empty());
    let blocks = out.document.blocks();
    assert_eq!(blocks.len(), 1);
    assert_eq!(blocks[0].jsp_start_col, 4);
    assert_eq!(blocks[0].text, " String s = \"\u{65e5}\u{672c}\"; ");
}

#[test]
fn text_without_delimiters() {
    let out = translate("<html>\n</html>");
    assert!(out.diagnostics.is_empty());
    assert_eq!(out.document.blocks().len(), 0);
    assert_eq!(out.document.text(), "");
    assert_eq!(out.document.line_count(), 0);
}

#[test]
fn several_unclosed_openers_in_source_order() {
    let out = translate("<% a\n  <% b");
    assert_eq!(out.diagnostics.len(), 2);
    assert_eq!(out.diagnostics[0].range, range(0, 0, 2));
    assert_eq!(out.diagnostics[1].range, range(1, 2, 4));
}

#[test]
fn a_scriptlet_opened_inside_another_is_held_whole() {
    let out = translate("<% a\n<% b %>\nc %>");
    assert!(out.diagnostics.is_empty());
    let blocks = out.document.blocks();
    assert_eq!(blocks.len(), 2);
    assert_eq!(blocks[0].text, " b ");
    assert_eq!((blocks[0].jsp_start_line, blocks[0].jsp_start_col), (1, 0));
    assert_eq!((blocks[0].java_start_line, blocks[0].java_line_count), (0, 1));
    assert_eq!(blocks[1].text, " a\n<% b %>\nc ");
    assert_eq!((blocks[1].jsp_start_line, blocks[1].jsp_start_col), (0, 0));
    assert_eq!((blocks[1].java_start_line, blocks[1].java_line_count), (1, 3));
    assert_eq!(out.document.text(), " b \n a\n<% b %>\nc \n");
    assert_eq!(out.document.line_count(), 4);
}

#[test]
fn every_delimiter_is_counted_once() {
    let text = "%> <% a %> <% <% b %> %> %> <% c";
    let out = translate(text);
    let openers = text.matches("<%").count();
    let closers = text.matches("%>").count();
    let unopened = out.diagnostics.iter().filter(|d| d.message == "Unopened %> tag").count();
    let unclosed = out.diagnostics.iter().filter(|d| d.message == "Unclosed <% tag").count();
    assert_eq!(out.diagnostics.len(), unopened + unclosed);
    assert_eq!(out.document.blocks().len() + unclosed, openers);
    assert_eq!(out.document.blocks().len() + unopened, closers);
    assert_eq!((unopened, unclosed), (2, 1));
}
