use jsp_lsp::mapping::{diagnostic_to_jsp, diagnostics_to_jsp, find_owner, position_to_jsp};
use jsp_lsp::model::{Diagnostic, Position, ScriptletBlock, Severity, TextRange};
use jsp_lsp::translator::translate;

fn diagnostic(line: usize, from: usize, end_line: usize, to: usize, message: &str) -> Diagnostic {
    Diagnostic {
        range: TextRange {
            start: Position { line, character: from },
            end: Position { line: end_line, character: to },
        },
        severity: Severity::Error,
        message: message.to_string(),
    }
}

const PAGE: &str = "<html>\n  <% int x = 1;\n     x++; %>\n<p><% y(); %></p>\n";

#[test]
fn owner_is_the_block_whose_lines_hold_the_line() {
    let out = translate(PAGE);
    assert_eq!(out.document.blocks().len(), 2);
    assert_eq!(find_owner(&out.document, 0), Some(0));
    assert_eq!(find_owner(&out.document, 1), Some(0));
    assert_eq!(find_owner(&out.document, 2), Some(1));
    assert_eq!(find_owner(&out.document, 3), None);
}

#[test]
fn first_line_is_shifted_behind_the_delimiter() {
    let out = translate(PAGE);
    let mapped = diagnostic_to_jsp(&out.document, &diagnostic(0, 1, 0, 4, "m")).unwrap();
    assert_eq!(mapped.range.start, Position { line: 1, character: 5 });
    assert_eq!(mapped.range.end, Position { line: 1, character: 8 });
    assert_eq!(mapped.message, "m");
    assert_eq!(mapped.severity, Severity::Error);
    assert_eq!(&PAGE.lines().nth(1).unwrap()[5..8], "int");
}

#[test]
fn later_lines_keep_their_column() {
    let out = translate(PAGE);
    let mapped = diagnostic_to_jsp(&out.document, &diagnostic(1, 5, 1, 6, "m")).unwrap();
    assert_eq!(mapped.range.start, Position { line: 2, character: 5 });
    assert_eq!(mapped.range.end, Position { line: 2, character: 6 });
    assert_eq!(&PAGE.lines().nth(2).unwrap()[5..6], "x");
}

#[test]
fn second_block_maps_to_its_own_line() {
    let out = translate(PAGE);
    let mapped = diagnostic_to_jsp(&out.document, &diagnostic(2, 1, 2, 2, "m")).unwrap();
    assert_eq!(mapped.range.start, Position { line: 3, character: 6 });
    assert_eq!(mapped.range.end, Position { line: 3, character: 7 });
    assert_eq!(&PAGE.lines().nth(3).unwrap()[6..7], "y");
}

#[test]
fn range_over_two_lines_of_a_block() {
    let out = translate(PAGE);
    let mapped = diagnostic_to_jsp(&out.document, &diagnostic(0, 0, 1, 9, "m")).unwrap();
    assert_eq!(mapped.range.start, Position { line: 1, character: 4 });
    assert_eq!(mapped.range.end, Position { line: 2, character: 9 });
}

#[test]
fn diagnostic_outside_every_block_has_no_place() {
    let out = translate(PAGE);
    assert_eq!(diagnostic_to_jsp(&out.document, &diagnostic(3, 0, 3, 1, "m")), None);
    let all = vec![diagnostic(7, 0, 7, 1, "lost"), diagnostic(2, 0, 2, 1, "kept")];
    let mapped = diagnostics_to_jsp(&out.document, &all);
    assert_eq!(mapped.len(), 1);
    assert_eq!(mapped[0].message, "kept");
    assert_eq!(mapped[0].range.start, Position { line: 3, character: 5 });
}

#[test]
fn position_by_the_rule_of_a_block() {
    let block = ScriptletBlock {
        jsp_start_line: 10,
        jsp_start_col: 4,
        java_start_line: 3,
        java_line_count: 2,
        text: String::from("a\nb"),
    };
    assert_eq!(
        position_to_jsp(&block, Position { line: 3, character: 0 }),
        Position { line: 10, character: 6 }
    );
    assert_eq!(
        position_to_jsp(&block, Position { line: 4, character: 7 }),
        Position { line: 11, character: 7 }
    );
    assert_eq!(
        position_to_jsp(&block, Position { line: 1, character: 7 }),
        Position { line: 8, character: 7 }
    );
    assert_eq!(
        position_to_jsp(&block, Position { line: 3, character: usize::MAX }),
        Position { line: 10, character: usize::MAX }
    );
    assert_eq!(
        position_to_jsp(&block, Position { line: usize::MAX, character: 1 }),
        Position { line: usize::MAX, character: 1 }
    );
}

fn place(text: &str, offset: usize) -> Position {
    let before = &text.as_bytes()[..offset];
    let line = before.iter().filter(|b| **b == b'\n').count();
    let start = before.iter().rposition(|b| *b == b'\n').map_or(0, |i| i + 1);
    Position { line, character: offset - start }
}

fn check_every_byte_leads_back(page: &str) {
    let out = translate(page);
    let java = out.document.text();
    let mut begin = 0;
    let mut searched = 0;
    for (index, block) in out.document.blocks().iter().enumerate() {
        let open = place_of_block(page, block);
        let body = open + 2;
        assert_eq!(&page[body..body + block.text.len()], block.text);
        for k in 0..block.text.len() {
            let there = place(java, begin + k);
            assert_eq!(java.as_bytes()[begin + k], page.as_bytes()[body + k]);
            assert_eq!(find_owner(&out.document, there.line), Some(index));
            assert_eq!(position_to_jsp(block, there), place(page, body + k), "block {} byte {}", index, k);
        }
        begin += block.text.len();
        if !block.text.ends_with('\n') {
            begin += 1;
        }
        searched += 1;
    }
    assert_eq!(begin, java.len());
    assert_eq!(searched, out.document.blocks().len());
}

fn place_of_block(page: &str, block: &ScriptletBlock) -> usize {
    let mut offset = 0;
    for (number, line) in page.split('\n').enumerate() {
        if number == block.jsp_start_line {
            return offset + block.jsp_start_col;
        }
        offset += line.len() + 1;
    }
    panic!("no line {}", block.jsp_start_line);
}

#[test]
fn every_byte_of_every_body_leads_back() {
    check_every_byte_leads_back(PAGE);
    check_every_byte_leads_back("<%a%><%\n%><%\nb\n\nc%>\n  x <% d\n%> <%%>");
    check_every_byte_leads_back("\u{e9}<% \"\u{65e5}\u{672c}\"\n + 1 %>\r\n<%\r\nx\r\n%>");
    check_every_byte_leads_back("<% a\n<% b\n c %>\n d %> <% e %>");
}
