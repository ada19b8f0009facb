use shard_a_zip::manifest::{describe, generate_manifest, ManifestRecord, MANIFEST_FOOTER, MANIFEST_HEADER};
use shard_a_zip::naming::{get_fragment_name, get_output_filename, truncate_name};
use shard_a_zip::size::format_size;
use shard_a_zip::splitter::{Finished, SplitError, Splitter, Start, Step, BUFFER_SIZE, MAX_ZIP_SIZE};

const MIB: u64 = 1024 * 1024;

/// One simulated output archive: its name and its entries (name, is_dir, bytes).
struct Archive {
    name: String,
    entries: Vec<(String, bool, Vec<u8>)>,
}

/// One source entry: name, directory flag, bytes.
struct Source {
    name: String,
    dir: bool,
    data: Vec<u8>,
}

fn file(name: &str, len: usize) -> Source {
    let data: Vec<u8> = (0..len).map(|i| (i % 251) as u8 ^ (name.len() as u8)).collect();
    Source { name: name.to_string(), dir: false, data }
}

fn dir(name: &str) -> Source {
    Source { name: name.to_string(), dir: true, data: Vec::new() }
}

/// Runs the decisions of a split over in-memory entries, doing what each
/// decision says on in-memory archives.
fn run(stem: &str, sources: &[Source]) -> (Vec<Archive>, Finished) {
    let mut s = Splitter::new(stem);
    let mut archives = vec![Archive { name: s.first_archive(), entries: Vec::new() }];
    for src in sources {
        match s.begin_entry(src.name.clone(), src.data.len() as u64, src.dir) {
            Start::Directory => {
                archives.last_mut().unwrap().entries.push((src.name.clone(), true, Vec::new()));
                continue;
            }
            Start::File { next_archive } => {
                if let Some(n) = next_archive {
                    archives.push(Archive { name: n, entries: Vec::new() });
                }
                archives.last_mut().unwrap().entries.push((src.name.clone(), false, Vec::new()));
            }
            Start::Fragment { archive, part } => {
                archives.push(Archive { name: archive, entries: vec![(part, false, Vec::new())] });
            }
        }
        for chunk in src.data.chunks(BUFFER_SIZE) {
            match s.on_chunk(chunk).unwrap() {
                Step::Write => {}
                Step::NextPart { archive, part } => {
                    archives.push(Archive { name: archive, entries: vec![(part, false, Vec::new())] });
                }
            }
            let a = archives.last_mut().unwrap();
            a.entries.last_mut().unwrap().2.extend_from_slice(chunk);
        }
        if let Some(n) = s.end_entry() {
            archives.push(Archive { name: n, entries: Vec::new() });
        }
    }
    let done = s.finish();
    if let Some(text) = &done.manifest {
        archives
            .last_mut()
            .unwrap()
            .entries
            .push(("_MANIFEST.txt".to_string(), false, text.as_bytes().to_vec()));
    }
    (archives, done)
}

fn file_bytes(a: &Archive) -> u64 {
    a.entries.iter().filter(|e| !e.1 && e.0 != "_MANIFEST.txt").map(|e| e.2.len() as u64).sum()
}

#[test]
fn output_names_carry_stem_and_index() {
    assert_eq!(get_output_filename("archive", 1), "archive1.zip");
    assert_eq!(get_output_filename("archive", 12), "archive12.zip");
    assert_eq!(get_output_filename("", 0), "0.zip");
}

#[test]
fn fragment_names_are_zero_padded() {
    assert_eq!(get_fragment_name("big.bin", 1), "big.bin.part001");
    assert_eq!(get_fragment_name("big.bin", 12), "big.bin.part012");
    assert_eq!(get_fragment_name("big.bin", 123), "big.bin.part123");
    assert_eq!(get_fragment_name("big.bin", 1000), "big.bin.part1000");
}

#[test]
fn sizes_are_formatted_in_binary_units() {
    assert_eq!(format_size(0), "0 B");
    assert_eq!(format_size(1023), "1023 B");
    assert_eq!(format_size(1024), "1.00 KB");
    assert_eq!(format_size(1536), "1.50 KB");
    assert_eq!(format_size(1152), "1.12 KB");
    assert_eq!(format_size(1048575), "1024.00 KB");
    assert_eq!(format_size(25 * MIB), "25.00 MB");
    assert_eq!(format_size(60 * MIB), "60.00 MB");
    assert_eq!(format_size(1024 * MIB), "1.00 GB");
    assert_eq!(format_size(3 * 1024 * MIB + 512 * MIB), "3.50 GB");
}

#[test]
fn manifest_lists_each_record() {
    let rec = ManifestRecord { name: "movie.mp4".to_string(), parts: 3, cap: 25 * MIB, size: 60 * MIB };
    let line = describe(&rec);
    assert_eq!(line, "SPLIT: movie.mp4 -> 3 parts (25.00 MB each, original: 60.00 MB)");
    let text = generate_manifest(&[line.clone(), "second".to_string()]);
    assert_eq!(text, format!("{}• {}\n• second\n{}", MANIFEST_HEADER, line, MANIFEST_FOOTER));
    assert!(text.contains("cat file.ext.part* > file.ext"));
}

#[test]
fn greedy_packing_with_one_oversized_entry() {
    let sources = vec![
        file("entry1", (10 * MIB) as usize),
        file("entry2", (10 * MIB) as usize),
        file("entry3", (10 * MIB) as usize),
        file("entry4", (60 * MIB) as usize),
    ];
    let (archives, done) = run("src", &sources);
    let names: Vec<&str> = archives.iter().map(|a| a.name.as_str()).collect();
    assert_eq!(names, vec!["src1.zip", "src2.zip", "src3.zip", "src4.zip", "src5.zip", "src6.zip"]);
    assert_eq!(file_bytes(&archives[0]), 20 * MIB);
    assert_eq!(archives[0].entries.len(), 2);
    assert_eq!(file_bytes(&archives[1]), 10 * MIB);
    assert_eq!(archives[2].entries[0].0, "entry4.part001");
    assert_eq!(archives[2].entries[0].2.len() as u64, 25 * MIB);
    assert_eq!(archives[3].entries[0].0, "entry4.part002");
    assert_eq!(archives[3].entries[0].2.len() as u64, 25 * MIB);
    assert_eq!(archives[4].entries[0].0, "entry4.part003");
    assert_eq!(archives[4].entries[0].2.len() as u64, 10 * MIB);
    let text = done.manifest.clone().unwrap();
    assert!(text.contains("• SPLIT: entry4 -> 3 parts (25.00 MB each, original: 60.00 MB)\n"));
    assert_eq!(archives[5].entries.len(), 1);
    assert_eq!(archives[5].entries[0].0, "_MANIFEST.txt");
    assert_eq!(done.result.output_files, names);
    assert!(done.discarded.is_empty());
    assert_eq!(done.result.total_files_processed, 4);
    assert_eq!(done.result.files_split, 1);
}

#[test]
fn fragments_rejoin_to_the_original_bytes() {
    let big = file("data/big.bin", (2 * MAX_ZIP_SIZE + 12345) as usize);
    let sources = vec![file("a.txt", 100), big];
    let (archives, _) = run("x", &sources);
    let mut parts: Vec<(String, Vec<u8>)> = Vec::new();
    for a in &archives {
        for e in &a.entries {
            if e.0.starts_with("data/big.bin.part") {
                assert_eq!(a.entries.len(), 1);
                parts.push((e.0.clone(), e.2.clone()));
            }
        }
    }
    assert_eq!(parts.len(), 3);
    parts.sort_by(|x, y| x.0.cmp(&y.0));
    let joined: Vec<u8> = parts.iter().flat_map(|p| p.1.clone()).collect();
    let original = file("data/big.bin", (2 * MAX_ZIP_SIZE + 12345) as usize).data;
    assert!(joined == original);
}

#[test]
fn whole_entries_appear_verbatim_once() {
    let sources = vec![file("a", 5000), dir("d/"), file("d/b", 20 * MIB as usize), file("d/c", 7 * MIB as usize)];
    let (archives, _) = run("w", &sources);
    for src in sources.iter().filter(|s| !s.dir) {
        let hits: Vec<&(String, bool, Vec<u8>)> =
            archives.iter().flat_map(|a| a.entries.iter()).filter(|e| e.0 == src.name).collect();
        assert_eq!(hits.len(), 1);
        assert!(hits[0].2 == src.data);
    }
    assert!(archives[0].entries.iter().any(|e| e.0 == "d/" && e.1));
}

#[test]
fn no_archive_exceeds_the_cap() {
    let sources = vec![
        file("a", (24 * MIB) as usize),
        file("b", (MIB + 1) as usize),
        file("c", MAX_ZIP_SIZE as usize),
        file("d", (MAX_ZIP_SIZE + 70000) as usize),
        file("e", 3),
        dir("f/"),
    ];
    let (archives, _) = run("cap", &sources);
    for a in &archives {
        assert!(file_bytes(a) <= MAX_ZIP_SIZE);
    }
}

#[test]
fn split_names_are_repeatable() {
    let make = || vec![file("a", (20 * MIB) as usize), file("b", (30 * MIB) as usize), file("c", 10)];
    let (_, first) = run("again", &make());
    let (_, second) = run("again", &make());
    assert_eq!(first.result.output_files, second.result.output_files);
    assert_eq!(first.result.output_files, vec!["again1.zip", "again2.zip", "again3.zip", "again4.zip"]);
}

#[test]
fn entry_of_exactly_the_cap_is_not_fragmented() {
    let mut s = Splitter::new("b");
    match s.begin_entry("exact".to_string(), MAX_ZIP_SIZE, false) {
        Start::File { next_archive } => assert!(next_archive.is_none()),
        _ => panic!("an entry of exactly the cap goes whole"),
    }
}

#[test]
fn entry_one_byte_over_the_cap_gets_two_parts() {
    let mut s = Splitter::new("b");
    match s.begin_entry("over".to_string(), MAX_ZIP_SIZE + 1, false) {
        Start::Fragment { archive, part } => {
            assert_eq!(archive, "b2.zip");
            assert_eq!(part, "over.part001");
        }
        _ => panic!("an entry over the cap is fragmented"),
    }
    let (archives, done) = run("b", &[file("over", (MAX_ZIP_SIZE + 1) as usize)]);
    let parts: Vec<&String> =
        archives.iter().flat_map(|a| a.entries.iter()).map(|e| &e.0).filter(|n| n.contains(".part")).collect();
    assert_eq!(parts, vec!["over.part001", "over.part002"]);
    assert_eq!(done.discarded, vec!["b1.zip"]);
}

#[test]
fn empty_source_keeps_nothing() {
    let (archives, done) = run("empty", &[]);
    assert_eq!(archives.len(), 1);
    assert!(done.manifest.is_none());
    assert!(done.result.output_files.is_empty());
    assert_eq!(done.discarded, vec!["empty1.zip"]);
    assert_eq!(done.result.total_files_processed, 0);
    assert_eq!(done.result.files_split, 0);
}

#[test]
fn no_empty_archive_is_kept() {
    let sources = vec![file("big", (MAX_ZIP_SIZE * 2) as usize), file("small", 10)];
    let (archives, done) = run("g", &sources);
    assert_eq!(archives.len(), 4);
    assert_eq!(done.discarded, vec!["g1.zip"]);
    assert_eq!(done.result.output_files, vec!["g2.zip", "g3.zip", "g4.zip"]);
    for a in &archives {
        let kept = done.result.output_files.contains(&a.name);
        assert_eq!(kept, !a.entries.is_empty());
    }
}

#[test]
fn stream_longer_than_declared_is_refused() {
    let mut s = Splitter::new("o");
    s.begin_entry("short".to_string(), 10, false);
    assert!(s.on_chunk(&[1u8; 10]).is_ok());
    assert_eq!(s.on_chunk(&[2u8; 1]).err(), Some(SplitError::EntryOverrun));
}

#[test]
fn rotation_opens_the_next_archive() {
    let mut s = Splitter::new("r");
    s.begin_entry("one".to_string(), 20 * MIB, false);
    let chunk = vec![0u8; BUFFER_SIZE];
    for _ in 0..320 {
        assert!(matches!(s.on_chunk(&chunk), Ok(Step::Write)));
    }
    assert!(s.end_entry().is_none());
    match s.begin_entry("two".to_string(), 6 * MIB, false) {
        Start::File { next_archive } => assert_eq!(next_archive, Some("r2.zip".to_string())),
        _ => panic!("a small entry goes whole"),
    }
    assert_eq!(s.archive_count(), 2);
    assert_eq!(s.entries_processed(), 2);
}

#[test]
fn long_names_are_shortened_from_the_front() {
    assert_eq!(truncate_name("short.txt", 30), "short.txt");
    assert_eq!(truncate_name("abcdefghij", 10), "abcdefghij");
    assert_eq!(truncate_name("abcdefghijk", 10), "...efghijk");
    assert_eq!(truncate_name("dir/ünïcödé-name.bin", 8), "...e.bin");
}
