use dirsize::error::Error;
use dirsize::listing::Entry;
use dirsize::listing::SortBy;
use dirsize::report::align;
use dirsize::report::append_bytes;
use dirsize::report::decimal_digits;
use dirsize::report::finish;
use dirsize::report::heading;
use dirsize::report::join_path;
use dirsize::report::pad_left;
use dirsize::report::push_line;
use dirsize::report::ranking_block;
use dirsize::report::ranking_text;
use dirsize::report::size_column;
use dirsize::report::space_usage_text;
use dirsize::report::usage_block;
use dirsize::report::widen_unit;
use std::io::Write;

fn report_listing(pairs: &[(&str, u64)]) -> Vec<Entry> {
    pairs.iter().map(|(name, size)| Entry { name: name.as_bytes().to_vec(), size: *size }).collect()
}

fn as_text(bytes: Vec<u8>) -> String {
    String::from_utf8(bytes).unwrap()
}

#[test]
fn size_column_is_ten_wide_and_flush_right() {
    assert_eq!(as_text(size_column(0)), "      0  B");
    assert_eq!(as_text(size_column(25)), "     25  B");
    assert_eq!(as_text(size_column(185)), "    185  B");
    assert_eq!(as_text(size_column(999)), "    999  B");
}

#[test]
fn size_column_uses_decimal_units() {
    assert_eq!(as_text(size_column(1000)), "    1.0 KB");
    assert_eq!(as_text(size_column(1500)), "    1.5 KB");
    assert_eq!(as_text(size_column(2_500_000)), "    2.5 MB");
    assert_eq!(as_text(size_column(7_000_000_000)), "    7.0 GB");
    assert_eq!(as_text(size_column(u64::MAX)), "   18.4 EB");
}

#[test]
fn size_column_is_what_the_formatter_gives() {
    for size in [0u64, 1, 9, 10, 512, 999, 1000, 1023, 1024, 65_536, 999_999, 123_456_789] {
        let plain = bytesize::ByteSize::b(size).to_string().replace(" B", "  B");
        assert_eq!(as_text(size_column(size)), format!("{: >10}", plain));
    }
}

#[test]
fn widen_unit_puts_a_space_before_the_byte_unit() {
    assert_eq!(as_text(widen_unit(&b"12 B".to_vec())), "12  B");
    assert_eq!(as_text(widen_unit(&b"1.5 KB".to_vec())), "1.5 KB");
    assert_eq!(as_text(widen_unit(&b"".to_vec())), "");
    assert_eq!(as_text(widen_unit(&b" ".to_vec())), " ");
    assert_eq!(as_text(widen_unit(&b" B".to_vec())), "  B");
    assert_eq!(as_text(widen_unit(&b" B B".to_vec())), "  B  B");
}

#[test]
fn widen_unit_replaces_as_std_does() {
    for text in ["", "B", " ", " B", "  B", " B ", " BB", "B B", " B B", "x B y  B z", "   ", " b"] {
        assert_eq!(as_text(widen_unit(&text.as_bytes().to_vec())), text.replace(" B", "  B"));
    }
}

#[test]
fn pad_left_fills_up_to_the_width() {
    assert_eq!(as_text(pad_left(&b"abc".to_vec(), 5)), "  abc");
    assert_eq!(as_text(pad_left(&b"abc".to_vec(), 3)), "abc");
    assert_eq!(as_text(pad_left(&b"abcdef".to_vec(), 3)), "abcdef");
    assert_eq!(as_text(pad_left(&b"".to_vec(), 2)), "  ");
    assert_eq!(as_text(pad_left(&b"".to_vec(), 0)), "");
    assert_eq!(as_text(pad_left(&b"x".to_vec(), 10)), format!("{: >10}", "x"));
}

#[test]
fn append_bytes_adds_at_the_end() {
    let mut text = b"ab".to_vec();
    append_bytes(&mut text, &b"cd".to_vec());
    append_bytes(&mut text, &Vec::new());
    assert_eq!(text, b"abcd".to_vec());
}

#[test]
fn push_line_writes_size_tab_label_and_line_feed() {
    let mut text = b">".to_vec();
    push_line(&mut text, 25, &b"./b".to_vec());
    assert_eq!(as_text(text), ">     25  B\t./b\n");
}

#[test]
fn join_path_puts_a_slash_between() {
    assert_eq!(as_text(join_path(&b".".to_vec(), &b"a".to_vec())), "./a");
    assert_eq!(as_text(join_path(&b"/srv/data".to_vec(), &b"a".to_vec())), "/srv/data/a");
    assert_eq!(as_text(join_path(&b"/srv/data/".to_vec(), &b"a".to_vec())), "/srv/data/a");
    assert_eq!(as_text(join_path(&b"/".to_vec(), &b"a".to_vec())), "/a");
    assert_eq!(as_text(join_path(&b"".to_vec(), &b"a".to_vec())), "a");
    assert_eq!(as_text(join_path(&b"root".to_vec(), &b"/abs".to_vec())), "/abs");
    assert_eq!(as_text(join_path(&b"root".to_vec(), &b"".to_vec())), "root/");
}

#[test]
fn join_path_agrees_with_std_paths() {
    for root in ["", ".", "/", "a", "a/", "/a/b", "a//"] {
        for name in ["", "x", "x.y", "/x", "x/y"] {
            let expected = std::path::Path::new(root).join(name);
            assert_eq!(
                as_text(join_path(&root.as_bytes().to_vec(), &name.as_bytes().to_vec())),
                expected.to_string_lossy()
            );
        }
    }
}

#[test]
fn decimal_digits_spell_the_number() {
    assert_eq!(as_text(decimal_digits(0)), "0");
    assert_eq!(as_text(decimal_digits(7)), "7");
    assert_eq!(as_text(decimal_digits(10)), "10");
    assert_eq!(as_text(decimal_digits(12345)), "12345");
    assert_eq!(as_text(decimal_digits(usize::MAX)), usize::MAX.to_string());
}

#[test]
fn heading_states_the_count() {
    assert_eq!(as_text(heading(3)), "Top 3 file types by space usage:\n");
    assert_eq!(as_text(heading(0)), "Top 0 file types by space usage:\n");
    assert_eq!(as_text(heading(120)), format!("Top {} file types by space usage:\n", 120));
}

#[test]
fn usage_text_lists_then_rules_then_totals() {
    let listing = report_listing(&[("b", 25), ("a", 150)]);
    let text = space_usage_text(&b".".to_vec(), 185, &listing);
    assert_eq!(
        as_text(text),
        "     25  B\t./b\n    150  B\t./a\n----------\n    185  B\t.\n"
    );
}

#[test]
fn usage_text_without_children_has_no_rule() {
    let text = space_usage_text(&b"/data".to_vec(), 10, &Vec::new());
    assert_eq!(as_text(text), "     10  B\t/data\n");
}

#[test]
fn ranking_text_labels_with_the_extension() {
    let listing = report_listing(&[("txt", 160), ("log", 25)]);
    assert_eq!(as_text(ranking_text(&listing)), "    160  B\ttxt\n     25  B\tlog\n");
    assert_eq!(as_text(ranking_text(&Vec::new())), "");
}

#[test]
fn invalid_bytes_in_names_are_replaced() {
    let listing = vec![Entry { name: vec![0x66, 0xff], size: 1 }];
    let text = ranking_text(&listing);
    assert_eq!(as_text(text), "      1  B\tf\u{fffd}\n");
    let text = space_usage_text(&vec![0x72, 0xfe], 1, &listing);
    assert_eq!(as_text(text), "      1  B\tr\u{fffd}/f\u{fffd}\n----------\n      1  B\tr\u{fffd}\n");
}

#[test]
fn align_turns_tabs_into_padding() {
    let aligned = align(&b"a\tx\nbbb\ty\n".to_vec()).unwrap();
    assert_eq!(as_text(aligned), "a    x\nbbb  y\n");
    let aligned = align(&b"no tabs\n".to_vec()).unwrap();
    assert_eq!(as_text(aligned), "no tabs\n");
    let aligned = align(&Vec::new()).unwrap();
    assert_eq!(as_text(aligned), "");
}

#[test]
fn finish_passes_text_on_and_names_the_failure() {
    assert_eq!(finish(Some(b"ok".to_vec())).unwrap(), b"ok".to_vec());
    assert!(matches!(finish(None), Err(Error::OutputWrite)));
}

#[test]
fn usage_block_sorts_and_aligns() {
    let listing = report_listing(&[("a", 150), ("b", 25)]);
    let block = usage_block(&b".".to_vec(), 185, listing, SortBy::Size, false).unwrap();
    assert_eq!(
        as_text(block),
        "     25  B  ./b\n    150  B  ./a\n----------\n    185  B  .\n"
    );
    let listing = report_listing(&[("a", 150), ("b", 25)]);
    let block = usage_block(&b".".to_vec(), 185, listing, SortBy::Size, true).unwrap();
    assert_eq!(
        as_text(block),
        "    150  B  ./a\n     25  B  ./b\n----------\n    185  B  .\n"
    );
    let listing = report_listing(&[("b", 25), ("a", 150)]);
    let block = usage_block(&b".".to_vec(), 185, listing, SortBy::Name, false).unwrap();
    assert_eq!(
        as_text(block),
        "    150  B  ./a\n     25  B  ./b\n----------\n    185  B  .\n"
    );
}

#[test]
fn usage_block_of_an_empty_root_is_the_total_alone() {
    let block = usage_block(&b".".to_vec(), 0, Vec::new(), SortBy::Size, false).unwrap();
    assert_eq!(as_text(block), "      0  B  .\n");
}

#[test]
fn usage_block_is_what_the_aligner_makes_of_the_lines() {
    let listing = report_listing(&[("docs", 1_500_000), ("src", 20_000), ("x", 3)]);
    let mut writer = tabwriter::TabWriter::new(vec![]);
    writer
        .write_all(b"      3  B\t/r/x\n   20.0 KB\t/r/src\n    1.5 MB\t/r/docs\n----------\n    1.5 MB\t/r\n")
        .unwrap();
    let expected = writer.into_inner().unwrap();
    let block = usage_block(&b"/r".to_vec(), 1_520_003, listing, SortBy::Size, false).unwrap();
    assert_eq!(as_text(block), as_text(expected));
}

#[test]
fn ranking_block_has_heading_lines_and_an_empty_line() {
    let listing = report_listing(&[("log", 25), ("txt", 160)]);
    let block = ranking_block(listing, 1, false).unwrap();
    assert_eq!(as_text(block), "Top 1 file types by space usage:\n    160  B  txt\n\n");
    let listing = report_listing(&[("log", 25), ("txt", 160)]);
    let block = ranking_block(listing, 2, false).unwrap();
    assert_eq!(
        as_text(block),
        "Top 2 file types by space usage:\n    160  B  txt\n     25  B  log\n\n"
    );
    let listing = report_listing(&[("log", 25), ("txt", 160)]);
    let block = ranking_block(listing, 2, true).unwrap();
    assert_eq!(
        as_text(block),
        "Top 2 file types by space usage:\n     25  B  log\n    160  B  txt\n\n"
    );
}

#[test]
fn ranking_block_of_nothing_is_heading_and_empty_line() {
    let block = ranking_block(Vec::new(), 5, false).unwrap();
    assert_eq!(as_text(block), "Top 5 file types by space usage:\n\n");
    let block = ranking_block(report_listing(&[("txt", 1)]), 0, false).unwrap();
    assert_eq!(as_text(block), "Top 0 file types by space usage:\n\n");
}

#[test]
fn blocks_are_made_whatever_the_data() {
    let odd = || {
        vec![
            Entry { name: Vec::new(), size: 0 },
            Entry { name: vec![0xff, 0xfe], size: u64::MAX },
            Entry { name: b"tab\there".to_vec(), size: 7 },
            Entry { name: b"line\nfeed".to_vec(), size: 7 },
            Entry { name: b"same".to_vec(), size: 7 },
        ]
    };
    for by in [SortBy::Name, SortBy::Size] {
        for reverse in [false, true] {
            assert!(usage_block(&Vec::new(), u64::MAX, odd(), by, reverse).is_ok());
            assert!(usage_block(&vec![0xff], 0, Vec::new(), by, reverse).is_ok());
        }
    }
    for limit in [0usize, 1, 3, 5, 6, usize::MAX] {
        for reverse in [false, true] {
            assert!(ranking_block(odd(), limit, reverse).is_ok());
            assert!(ranking_block(Vec::new(), limit, reverse).is_ok());
        }
    }
    assert!(align(&b"\t\t\n\n\t".to_vec()).is_ok());
    assert!(align(&vec![0xff, 9, 0xfe, 10]).is_ok());
}

#[test]
fn ranking_block_chooses_the_largest_whatever_the_flag() {
    let listing = report_listing(&[("log", 25), ("txt", 160)]);
    let block = ranking_block(listing, 1, true).unwrap();
    assert_eq!(as_text(block), "Top 1 file types by space usage:\n    160  B  txt\n\n");
    let listing = report_listing(&[("txt", 160), ("log", 25)]);
    let block = ranking_block(listing, 1, false).unwrap();
    assert_eq!(as_text(block), "Top 1 file types by space usage:\n    160  B  txt\n\n");
}

#[test]
fn usage_block_of_files_in_the_root_has_no_rule() {
    let block = usage_block(&b"r".to_vec(), 10, Vec::new(), SortBy::Size, false).unwrap();
    assert_eq!(as_text(block), "     10  B  r\n");
    let listing = report_listing(&[("empty", 0)]);
    let block = usage_block(&b"r".to_vec(), 0, listing, SortBy::Size, false).unwrap();
    assert_eq!(as_text(block), "      0  B  r/empty\n----------\n      0  B  r\n");
}
