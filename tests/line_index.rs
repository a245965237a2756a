use memmap2::{Mmap, MmapMut};
use search_tool::{read_chunk, IndexCache, LineIndex, Workspace};

fn mapped(bytes: &[u8]) -> Mmap {
    let mut m = MmapMut::map_anon(bytes.len()).unwrap();
    m.copy_from_slice(bytes);
    m.make_read_only().unwrap()
}

fn index_of(bytes: &[u8]) -> LineIndex {
    LineIndex::new(mapped(bytes))
}

#[test]
fn three_lines_without_final_newline() {
    let index = index_of(b"a\nbb\nccc");
    assert_eq!(index.line_count(), 3);
    assert_eq!(index.get_lines(0, 2), vec!["a".to_string(), "bb".to_string()]);
    assert_eq!(index.get_lines(2, 5), vec!["ccc".to_string()]);
    let chunk = read_chunk(&index, 2, 5);
    assert_eq!(chunk.lines, vec!["ccc".to_string()]);
    assert_eq!(chunk.offset, 3);
    assert!(!chunk.has_more);
}

#[test]
fn empty_file_has_one_empty_line() {
    let index = index_of(b"");
    assert_eq!(index.line_count(), 1);
    assert_eq!(index.get_lines(0, 1), vec![String::new()]);
    let chunk = read_chunk(&index, 0, 10);
    assert_eq!(chunk.lines, vec![String::new()]);
    assert_eq!(chunk.offset, 1);
    assert!(!chunk.has_more);
}

#[test]
fn final_newline_gives_empty_last_line() {
    let index = index_of(b"x\r\ny\r\n");
    assert_eq!(index.line_count(), 3);
    assert_eq!(
        index.get_lines(0, 3),
        vec!["x".to_string(), "y".to_string(), String::new()]
    );
}

#[test]
fn only_one_line_ending_is_stripped() {
    let index = index_of(b"a \r\r\nb\r");
    assert_eq!(index.get_lines(0, 2), vec!["a \r".to_string(), "b".to_string()]);
}

#[test]
fn window_past_end_is_empty() {
    let index = index_of(b"one\ntwo\n");
    assert!(index.get_lines(3, 2).is_empty());
    assert!(index.get_lines(usize::MAX, usize::MAX).is_empty());
    assert_eq!(index.get_lines(1, usize::MAX), vec!["two".to_string(), String::new()]);
    let chunk = read_chunk(&index, 7, 4);
    assert!(chunk.lines.is_empty());
    assert_eq!(chunk.offset, 7);
    assert!(!chunk.has_more);
}

#[test]
fn invalid_utf8_is_replaced() {
    let index = index_of(b"\xffa\nok");
    assert_eq!(index.get_lines(0, 1), vec!["\u{FFFD}a".to_string()]);
    assert_eq!(index.get_lines(1, 1), vec!["ok".to_string()]);
}

#[test]
fn single_line_matches_independent_split() {
    let text = "first\n\nthird line\r\n  fourth  \nlast";
    let index = index_of(text.as_bytes());
    let reference: Vec<&str> = text.split('\n').collect();
    assert_eq!(index.line_count(), reference.len());
    for (i, line) in reference.iter().enumerate() {
        let expected = line.strip_suffix('\r').unwrap_or(line);
        assert_eq!(index.get_lines(i, 1), vec![expected.to_string()]);
    }
}

#[test]
fn paging_yields_every_line_once() {
    let text = "l0\nl1\nl2\nl3\nl4\nl5\nl6";
    let index = index_of(text.as_bytes());
    let all: Vec<String> = text.split('\n').map(|s| s.to_string()).collect();
    for count in [1usize, 2, 3, 7, 100] {
        let mut offset = 0;
        let mut calls = 0;
        let mut seen: Vec<String> = Vec::new();
        loop {
            let chunk = read_chunk(&index, offset, count);
            calls += 1;
            assert_eq!(chunk.offset, std::cmp::min(calls * count, all.len()));
            seen.extend(chunk.lines);
            offset = chunk.offset;
            if !chunk.has_more {
                break;
            }
        }
        assert_eq!(calls, (all.len() + count - 1) / count);
        assert_eq!(seen, all);
    }
    let mut offset = 4;
    let mut rest: Vec<String> = Vec::new();
    loop {
        let chunk = read_chunk(&index, offset, 2);
        rest.extend(chunk.lines);
        offset = chunk.offset;
        if !chunk.has_more {
            break;
        }
    }
    assert_eq!(rest, all[4..].to_vec());
}

#[test]
fn indexing_twice_gives_same_lines() {
    let bytes = b"alpha\nbeta\n\ngamma";
    let a = index_of(bytes);
    let b = index_of(bytes);
    assert_eq!(a.line_count(), b.line_count());
    assert_eq!(a.get_lines(0, 10), b.get_lines(0, 10));
}

#[test]
fn cache_keeps_first_index() {
    let mut cache = IndexCache::new();
    let key = "/data/log.txt".to_string();
    let mut builds = 0;
    for _ in 0..3 {
        if !cache.contains(&key) {
            builds += 1;
            cache.insert(key.clone(), index_of(b"first\nindex"));
        }
    }
    assert_eq!(builds, 1);
    cache.insert(key.clone(), index_of(b"second"));
    let index = cache.get(&key).unwrap();
    assert_eq!(index.get_lines(0, 5), vec!["first".to_string(), "index".to_string()]);
    assert!(cache.get(&"/data/other.txt".to_string()).is_none());
}

#[test]
fn workspace_reads_through_kept_index() {
    let mut ws = Workspace::new();
    let key = "/tmp/proj/a.txt".to_string();
    assert!(!ws.has_index(&key));
    assert!(ws.read_cached(&key, 0, 2).is_none());
    ws.store_index(key.clone(), index_of(b"a\nbb\nccc"));
    assert!(ws.has_index(&key));
    let chunk = ws.read_cached(&key, 0, 2).unwrap();
    assert_eq!(chunk.lines, vec!["a".to_string(), "bb".to_string()]);
    assert_eq!(chunk.offset, 2);
    assert!(chunk.has_more);
    let chunk = ws.read_cached(&key, chunk.offset, 2).unwrap();
    assert_eq!(chunk.lines, vec!["ccc".to_string()]);
    assert_eq!(chunk.offset, 3);
    assert!(!chunk.has_more);
}
