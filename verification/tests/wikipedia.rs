use benostreamdb::cli::{ingest_mode, read_line, total_rows, IngestMode, ReplCommand};
use benostreamdb::wikipedia::{
    link_targets, page_links, summary, DumpEvent, PageBuffer, PageReader,
};

fn start(name: &str) -> DumpEvent {
    DumpEvent::Start(name.to_string())
}

fn text(s: &str) -> DumpEvent {
    DumpEvent::Text(s.to_string())
}

fn end(name: &str) -> DumpEvent {
    DumpEvent::End(name.to_string())
}

#[test]
fn pages_are_read_from_a_dump() {
    let mut reader = PageReader::new();
    let mut pages = Vec::new();
    for event in [
        start("title"),
        text("ignored"),
        start("page"),
        start("title"),
        text("Rust"),
        end("title"),
        start("id"),
        text("7"),
        end("id"),
        start("revision"),
        start("id"),
        text("99"),
        end("id"),
        start("text"),
        text("See [[C]]"),
        text(" and [[D|d]]."),
        end("text"),
        end("page"),
        text("ignored"),
        start("page"),
        end("page"),
    ] {
        pages.extend(reader.take_event(event));
    }
    assert_eq!(pages.len(), 2);
    assert_eq!(pages[0].title, "Rust");
    assert_eq!(pages[0].id, "7");
    assert_eq!(pages[0].text, "See [[C]] and [[D|d]].");
    assert_eq!(pages[1].title, "");
    let links = page_links(&pages[0].text).unwrap();
    assert_eq!(links, vec!["C".to_string(), "D".to_string()]);
    let mut buffer = PageBuffer::new();
    buffer.add_page(&pages[0], links);
    assert_eq!(buffer.sources, vec!["Rust".to_string(), "Rust".to_string()]);
    assert_eq!(buffer.total_pages, 1);
    assert_eq!(buffer.total_edges, 2);
    assert!(!buffer.pages_full());
    assert!(!buffer.edges_full());
    let (ids, titles, summaries) = buffer.take_pages();
    assert_eq!(ids, vec!["7".to_string()]);
    assert_eq!(titles, vec!["Rust".to_string()]);
    assert_eq!(summaries, vec!["See [[C]] and [[D|d]].".to_string()]);
    let (sources, targets) = buffer.take_edges();
    assert_eq!(sources.len(), 2);
    assert_eq!(targets[1], "D");
    assert!(buffer.ids.is_empty() && buffer.targets.is_empty());
}

#[test]
fn links_elsewhere_are_left_out() {
    assert_eq!(
        page_links("[[File:a.png]] [[Paris]] [[open\n]] [[Category:X|y]] [[a|b:c]]").unwrap(),
        vec!["Paris".to_string(), "a".to_string()]
    );
    assert_eq!(link_targets(&vec!["x|y|z".to_string()]), vec!["x".to_string()]);
}

#[test]
fn summaries_are_short() {
    assert_eq!(summary("short"), "short");
    let exact = "é".repeat(500);
    assert_eq!(summary(&exact), exact);
    let long = "é".repeat(501);
    assert_eq!(summary(&long), format!("{}...", "é".repeat(500)));
}

#[test]
fn lines_of_the_prompt_are_understood() {
    assert!(matches!(read_line("  EXIT "), ReplCommand::Exit));
    assert!(matches!(read_line("quit"), ReplCommand::Exit));
    assert!(matches!(read_line("   "), ReplCommand::Nothing));
    match read_line("Register people  s3://b/people\n") {
        ReplCommand::Register { name, uri } => {
            assert_eq!(name, "people");
            assert_eq!(uri, "s3://b/people");
        }
        other => panic!("{other:?}"),
    }
    assert!(matches!(read_line("register people"), ReplCommand::Query(_)));
    assert!(matches!(read_line(" SELECT 1 "), ReplCommand::Query(q) if q == "SELECT 1"));
}

#[test]
fn ingestion_has_a_mode() {
    let input = vec!["a.parquet".to_string(), "b.parquet".to_string()];
    assert!(matches!(
        ingest_mode(true, 0, Some(1), Some(2), &input),
        Ok(IngestMode::Coordinated { lease_secs: 1 })
    ));
    assert!(matches!(
        ingest_mode(false, 300, Some(1), Some(2), &input),
        Ok(IngestMode::Range { path, start: 1, end: 2 }) if path == "a.parquet"
    ));
    assert!(matches!(
        ingest_mode(false, 300, Some(1), None, &input),
        Ok(IngestMode::All)
    ));
    assert_eq!(
        ingest_mode(false, 300, Some(1), Some(2), &vec![]).unwrap_err(),
        "--row-start/--row-end require --input"
    );
    assert_eq!(total_rows(&vec![1, 2, 3]), 6);
}
