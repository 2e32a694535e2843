use brc::aggregate::aggregate_chunk;
use brc::cities::{add_city, get_cities, get_city_name};
use brc::engine::{merge_chunks, run, summarize};
use brc::error::AggError;
use brc::parse::parse_value;
use brc::partition::partition;
use brc::report::{bytes_less, report};
use brc::state::State;
use brc::table::{merge, Table};

fn run_str(input: &str, parts: usize) -> Result<String, AggError> {
    run(input.as_bytes(), parts).map(|b| String::from_utf8(b).unwrap())
}

fn state_of(values: &[i64]) -> State {
    let mut s = State::new();
    for v in values {
        s.update(*v);
    }
    s
}

fn same_state(a: &State, b: &State) -> bool {
    a.min == b.min && a.max == b.max && a.count == b.count && a.sum == b.sum
}

#[test]
fn end_to_end_two_keys() {
    let out = run_str("Paris;12.3\nLondon;-4.0\nParis;8.7\n", 2).unwrap();
    assert_eq!(out, "{London=-4.0/-4.0/-4.0, Paris=8.7/10.5/12.3}");
}

#[test]
fn end_to_end_empty_input() {
    for parts in 1..=4 {
        assert_eq!(run_str("", parts).unwrap(), "{}");
    }
}

#[test]
fn end_to_end_single_key_any_chunk_count() {
    for parts in 1..=8 {
        assert_eq!(run_str("A;0.0\nA;0.0\nA;0.0\n", parts).unwrap(), "{A=0.0/0.0/0.0}");
    }
}

#[test]
fn missing_delimiter_is_malformed_record() {
    assert_eq!(run_str("NoDelimiterHere\n", 1), Err(AggError::MalformedRecord));
    assert_eq!(run_str("Paris;1.0\nNoDelimiterHere\nRome;2.0\n", 2), Err(AggError::MalformedRecord));
}

#[test]
fn bad_value_is_malformed_number() {
    assert_eq!(run_str("A;1.2.3\n", 1), Err(AggError::MalformedNumber));
    assert_eq!(run_str("A;\n", 1), Err(AggError::MalformedNumber));
    assert_eq!(run_str("A;x1\n", 3), Err(AggError::MalformedNumber));
}

#[test]
fn empty_line_is_malformed_record() {
    assert_eq!(run_str("A;1.0\n\nB;2.0\n", 1), Err(AggError::MalformedRecord));
}

#[test]
fn last_line_without_newline() {
    assert_eq!(run_str("B;1.5\nA;2.5", 2).unwrap(), "{A=2.5/2.5/2.5, B=1.5/1.5/1.5}");
}

#[test]
fn same_result_for_every_chunk_count() {
    let mut input = String::new();
    let keys = ["Oslo", "Lima", "Kyiv", "Baku", "Oslo2", "Rome"];
    for i in 0..500i64 {
        let v = (i * 37) % 1999 - 999;
        let sign = if v < 0 { "-" } else { "" };
        input.push_str(&format!("{};{}{}.{}\n", keys[(i % 6) as usize], sign, v.abs() / 10, v.abs() % 10));
    }
    let one = run_str(&input, 1).unwrap();
    for parts in [2usize, 3, 7, 16, 64, 1000] {
        assert_eq!(run_str(&input, parts).unwrap(), one);
    }
}

#[test]
fn mean_rounds_half_away_from_zero() {
    assert_eq!(run_str("K;0.1\nK;0.2\n", 1).unwrap(), "{K=0.1/0.2/0.2}");
    assert_eq!(run_str("K;-0.1\nK;-0.2\n", 1).unwrap(), "{K=-0.2/-0.2/-0.1}");
    assert_eq!(run_str("K;-0.1\nK;0.0\nK;0.0\nK;0.0\n", 1).unwrap(), "{K=-0.1/0.0/0.0}");
}

#[test]
fn keys_sorted_by_bytes() {
    let out = run_str("b;1.0\nB;2.0\nab;3.0\na;4.0\n", 2).unwrap();
    assert_eq!(out, "{B=2.0/2.0/2.0, a=4.0/4.0/4.0, ab=3.0/3.0/3.0, b=1.0/1.0/1.0}");
}

#[test]
fn report_is_reproduced_by_formatting_again() {
    let input = b"x;1.0\ny;2.0\nx;3.0\n";
    let t = summarize(input, 2).unwrap();
    let first = report(&t);
    let second = report(&t);
    assert_eq!(first, second);
    let t2 = summarize(input, 1).unwrap();
    assert_eq!(report(&t2), first);
}

#[test]
fn parse_values_in_tenths() {
    assert_eq!(parse_value(b"12.3"), Ok(123));
    assert_eq!(parse_value(b"-4.0"), Ok(-40));
    assert_eq!(parse_value(b"+5"), Ok(50));
    assert_eq!(parse_value(b"0"), Ok(0));
    assert_eq!(parse_value(b"-99.9"), Ok(-999));
    assert_eq!(parse_value(b"99999999999999999.9"), Ok(999999999999999999));
    assert_eq!(parse_value(b"999999999999999999"), Err(AggError::MalformedNumber));
    assert_eq!(parse_value(b""), Err(AggError::MalformedNumber));
    assert_eq!(parse_value(b"-"), Err(AggError::MalformedNumber));
    assert_eq!(parse_value(b"7."), Err(AggError::MalformedNumber));
    assert_eq!(parse_value(b".5"), Err(AggError::MalformedNumber));
    assert_eq!(parse_value(b"1,5"), Err(AggError::MalformedNumber));
}

#[test]
fn parse_rounds_extra_fraction_digits() {
    assert_eq!(parse_value(b"1.25"), Ok(13));
    assert_eq!(parse_value(b"1.2499"), Ok(12));
    assert_eq!(parse_value(b"-1.25"), Ok(-13));
    assert_eq!(parse_value(b"0.05"), Ok(1));
    assert_eq!(parse_value(b"9.96"), Ok(100));
    assert_eq!(parse_value(b"1.2x"), Err(AggError::MalformedNumber));
    assert_eq!(run_str("K;1.25\nK;-3.333\n", 1).unwrap(), "{K=-3.3/-1.0/1.3}");
}

#[test]
fn merge_of_disjoint_groups_equals_union() {
    let a = [123i64, -40, 87];
    let b = [5i64, -999, 999, 0];
    let mut merged = state_of(&a);
    merged.merge(&state_of(&b));
    let all: Vec<i64> = a.iter().chain(b.iter()).copied().collect();
    assert!(same_state(&merged, &state_of(&all)));
    let mut other_way = state_of(&b);
    other_way.merge(&state_of(&a));
    assert!(same_state(&other_way, &merged));
}

#[test]
fn merge_with_empty_state_is_neutral() {
    let mut s = state_of(&[10, 20]);
    s.merge(&State::new());
    assert!(same_state(&s, &state_of(&[10, 20])));
    assert_eq!((s.min, s.max, s.count, s.sum), (10, 20, 2, 30));
}

#[test]
fn partition_covers_input_on_line_boundaries() {
    let input = b"aa;1.0\nb;2.0\ncccc;3.0\nd;4.0\ne;5.0";
    for parts in 1..=12usize {
        let chunks = partition(input, parts);
        assert_eq!(chunks.len(), parts);
        assert_eq!(chunks[0].0, 0);
        assert_eq!(chunks[parts - 1].1, input.len());
        for i in 0..parts {
            assert!(chunks[i].0 <= chunks[i].1);
            if i + 1 < parts {
                assert_eq!(chunks[i].1, chunks[i + 1].0);
                let end = chunks[i].1;
                assert!(end == input.len() || input[end - 1] == b'\n');
            }
        }
    }
}

#[test]
fn partition_ends_chunks_past_newlines() {
    let chunks = partition(b"a;1\nb;2\nc;3\n", 3);
    assert_eq!(chunks, vec![(0, 8), (8, 12), (12, 12)]);
    let single = partition(b"abc", 4);
    assert_eq!(single, vec![(0, 3), (3, 3), (3, 3), (3, 3)]);
}

#[test]
fn chunk_aggregate_counts_keys() {
    let input = b"a;1.0\nb;2.0\na;3.0\n";
    let t = aggregate_chunk(input, 0, input.len()).unwrap();
    assert_eq!(t.len(), 2);
    let i = t.find(b"a").unwrap();
    let s = &t.entries[i].state;
    assert_eq!((s.min, s.max, s.count, s.sum), (10, 30, 2, 40));
    assert!(t.find(b"c").is_none());
}

#[test]
fn tables_merge_key_by_key() {
    let mut a = aggregate_chunk(b"a;1.0\nb;2.0\n", 0, 12).unwrap();
    let b = aggregate_chunk(b"b;4.0\nc;5.0\n", 0, 12).unwrap();
    assert!(a.can_merge(&b));
    merge(&mut a, &b);
    assert_eq!(a.len(), 3);
    let s = &a.entries[a.find(b"b").unwrap()].state;
    assert_eq!((s.min, s.max, s.count, s.sum), (20, 40, 2, 60));
}

#[test]
fn byte_order_comparison() {
    assert!(bytes_less(b"B", b"a"));
    assert!(bytes_less(b"a", b"ab"));
    assert!(!bytes_less(b"ab", b"a"));
    assert!(!bytes_less(b"a", b"a"));
    assert!(bytes_less(b"", b"a"));
}

#[test]
fn empty_table_reports_braces() {
    assert_eq!(report(&Table::new()), b"{}".to_vec());
}

#[test]
fn city_names_are_distinct_and_alphanumeric() {
    let cities = get_cities(50);
    assert_eq!(cities.len(), 50);
    for (i, c) in cities.iter().enumerate() {
        assert!(!c.is_empty() && c.len() <= 32);
        assert!(c.chars().all(|ch| ch.is_ascii_alphanumeric()));
        assert!(!c.contains(';'));
        for d in cities.iter().skip(i + 1) {
            assert_ne!(c, d);
        }
    }
    let name = get_city_name();
    assert!(!name.is_empty() && name.len() <= 32);
}

#[test]
fn add_city_skips_delimiters_and_repeats() {
    let mut cities: Vec<String> = Vec::new();
    assert!(add_city(&mut cities, "Oslo".to_string()));
    assert!(!add_city(&mut cities, "Oslo".to_string()));
    assert!(!add_city(&mut cities, "Bad;Name".to_string()));
    assert!(add_city(&mut cities, "Lima".to_string()));
    assert_eq!(cities, vec!["Oslo".to_string(), "Lima".to_string()]);
}

#[test]
fn chunk_results_merge_in_order() {
    let input = b"a;1.0\nb;2.0\na;3.0\nc;4.0\n";
    let chunks = partition(input, 3);
    let results: Vec<_> = chunks.iter().map(|&(s, e)| aggregate_chunk(input, s, e)).collect();
    let t = merge_chunks(input, &chunks, &results).unwrap();
    assert_eq!(report(&t), b"{a=1.0/2.0/3.0, b=2.0/2.0/2.0, c=4.0/4.0/4.0}".to_vec());
    let bad = b"a;1.0\nnope\nb;x\n";
    let chunks = partition(bad, 3);
    let results: Vec<_> = chunks.iter().map(|&(s, e)| aggregate_chunk(bad, s, e)).collect();
    assert_eq!(merge_chunks(bad, &chunks, &results).err(), Some(AggError::MalformedRecord));
}

#[test]
fn rendered_report_reads_back_to_itself() {
    let first = run_str("Paris;12.34\nLondon;-4.05\nParis;8.7\n", 2).unwrap();
    assert_eq!(first, "{London=-4.1/-4.1/-4.1, Paris=8.7/10.5/12.3}");
    // Turn each rendered min/mean/max back into records and format again.
    let mut again = String::new();
    for entry in first.trim_matches(|c| c == '{' || c == '}').split(", ") {
        let (key, nums) = entry.split_once('=').unwrap();
        for n in nums.split('/') {
            assert!(parse_value(n.as_bytes()).is_ok());
        }
        let v: Vec<&str> = nums.split('/').collect();
        if v[0] == v[2] {
            again.push_str(&format!("{key};{}\n", v[0]));
        } else {
            again.push_str(&format!("{key};{}\n{key};{}\n", v[0], v[2]));
        }
    }
    assert_eq!(run_str(&again, 3).unwrap(), first);
}
