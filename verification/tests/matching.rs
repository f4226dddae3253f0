use markup_minify::codepoint::is_whitespace;
use markup_minify::pattern::SinglePattern;
use markup_minify::proc::range::ProcessorRange;
use markup_minify::proc::trie::Trie;
use markup_minify::proc::{MatchAction, MatchCond, MatchMode, Processor};

type Pred = fn(u8) -> bool;

fn ch(c: u8) -> MatchMode<Pred> {
    MatchMode::Char(c)
}

fn pred(p: Pred) -> MatchMode<Pred> {
    MatchMode::Pred(p)
}

fn seq(s: &'static [u8]) -> MatchMode<Pred> {
    MatchMode::Sequence(s)
}

fn pat(s: &[u8]) -> MatchMode<Pred> {
    MatchMode::Pat(Box::leak(Box::new(SinglePattern::new(s.to_vec()))))
}

fn is_digit(c: u8) -> bool {
    c.is_ascii_digit()
}

fn count(src: &[u8], cond: MatchCond, mode: MatchMode<Pred>) -> usize {
    let mut proc = Processor::new(src.to_vec());
    let range = proc.m(cond, mode, MatchAction::MatchOnly);
    assert_eq!(range.start, 0);
    assert_eq!(proc.read_len(), 0);
    assert_eq!(proc.written_len(), 0);
    assert_eq!(proc.code(), src);
    range.end
}

#[test]
fn is_char_matches_exactly_one_byte() {
    assert_eq!(count(b"aab", MatchCond::Is, ch(b'a')), 1);
    assert_eq!(count(b"baa", MatchCond::Is, ch(b'a')), 0);
    assert_eq!(count(b"", MatchCond::Is, ch(b'a')), 0);
}

#[test]
fn is_not_char_matches_one_other_byte() {
    assert_eq!(count(b"baa", MatchCond::IsNot, ch(b'a')), 1);
    assert_eq!(count(b"aab", MatchCond::IsNot, ch(b'a')), 0);
    assert_eq!(count(b"", MatchCond::IsNot, ch(b'a')), 0);
}

#[test]
fn while_char_matches_the_longest_run() {
    assert_eq!(count(b"aaab", MatchCond::While, ch(b'a')), 3);
    assert_eq!(count(b"baaa", MatchCond::While, ch(b'a')), 0);
    assert_eq!(count(b"aaa", MatchCond::While, ch(b'a')), 3);
    assert_eq!(count(b"", MatchCond::While, ch(b'a')), 0);
}

#[test]
fn while_not_char_stops_before_the_byte() {
    assert_eq!(count(b"xyz>a", MatchCond::WhileNot, ch(b'>')), 3);
    assert_eq!(count(b">xyz", MatchCond::WhileNot, ch(b'>')), 0);
    assert_eq!(count(b"xyz", MatchCond::WhileNot, ch(b'>')), 3);
}

#[test]
fn through_char_takes_the_delimiter_or_nothing() {
    assert_eq!(count(b"xyz>a>", MatchCond::Through, ch(b'>')), 4);
    assert_eq!(count(b">xyz", MatchCond::Through, ch(b'>')), 1);
    assert_eq!(count(b"xyz", MatchCond::Through, ch(b'>')), 0);
    assert_eq!(count(b"", MatchCond::Through, ch(b'>')), 0);
}

#[test]
fn predicate_modes_follow_the_predicate() {
    assert_eq!(count(b"1a", MatchCond::Is, pred(is_digit)), 1);
    assert_eq!(count(b"a1", MatchCond::Is, pred(is_digit)), 0);
    assert_eq!(count(b"a1", MatchCond::IsNot, pred(is_digit)), 1);
    assert_eq!(count(b"1a", MatchCond::IsNot, pred(is_digit)), 0);
    assert_eq!(count(b"123a4", MatchCond::While, pred(is_digit)), 3);
    assert_eq!(count(b"abc12", MatchCond::WhileNot, pred(is_digit)), 3);
    assert_eq!(count(b"abc12", MatchCond::Through, pred(is_digit)), 4);
    assert_eq!(count(b"abc", MatchCond::Through, pred(is_digit)), 0);
    assert_eq!(count(b" \t\n\x0c\rx ", MatchCond::While, pred(is_whitespace)), 5);
}

#[test]
fn sequence_is_matches_the_whole_sequence_or_nothing() {
    assert_eq!(count(b"<!--x", MatchCond::Is, seq(b"<!--")), 4);
    assert_eq!(count(b"<!-x", MatchCond::Is, seq(b"<!--")), 0);
    assert_eq!(count(b"<!-", MatchCond::Is, seq(b"<!--")), 0);
    assert_eq!(count(b"abc", MatchCond::Is, seq(b"")), 0);
}

#[test]
fn sequence_is_not_matches_as_many_differing_bytes() {
    assert_eq!(count(b"<!-x-", MatchCond::IsNot, seq(b"<!--")), 4);
    assert_eq!(count(b"<!--x", MatchCond::IsNot, seq(b"<!--")), 0);
    // Too short to hold the sequence: nothing matches.
    assert_eq!(count(b"<!-", MatchCond::IsNot, seq(b"<!--")), 0);
}

#[test]
fn while_not_pattern_stops_before_the_first_occurrence() {
    assert_eq!(count(b"var x;</script>y</script>", MatchCond::WhileNot, pat(b"</script>")), 6);
    assert_eq!(count(b"</script>", MatchCond::WhileNot, pat(b"</script>")), 0);
    assert_eq!(count(b"var x;</scrip", MatchCond::WhileNot, pat(b"</script>")), 13);
}

#[test]
fn through_pattern_takes_the_pattern_or_nothing() {
    assert_eq!(count(b"var x;</script>y</script>", MatchCond::Through, pat(b"</script>")), 15);
    assert_eq!(count(b"</script>", MatchCond::Through, pat(b"</script>")), 9);
    assert_eq!(count(b"var x;</scrip", MatchCond::Through, pat(b"</script>")), 0);
}

#[test]
fn keep_shifts_the_match_and_names_the_output_span() {
    let mut proc = Processor::new(b"  abc def".to_vec());
    let dropped = proc.m(MatchCond::While, pred(is_whitespace), MatchAction::Discard);
    assert_eq!(dropped, ProcessorRange { start: 0, end: 2 });
    assert_eq!(proc.read_len(), 2);
    assert_eq!(proc.written_len(), 0);
    let kept = proc.m(MatchCond::WhileNot, pred(is_whitespace), MatchAction::Keep);
    assert_eq!(kept, ProcessorRange { start: 0, end: 3 });
    assert_eq!(proc.read_len(), 5);
    assert_eq!(proc.written_len(), 3);
    assert_eq!(proc.index(kept), b"abc");
    assert_eq!(proc.code(), b"abcbc def");
}

#[test]
fn discard_advances_reading_only_and_names_the_source_span() {
    let mut proc = Processor::new(b"x<!-- c -->y".to_vec());
    proc.accept_expect();
    let range = proc.m(MatchCond::Through, pat(b"-->"), MatchAction::Discard);
    assert_eq!(range, ProcessorRange { start: 1, end: 11 });
    assert_eq!(proc.read_len(), 11);
    assert_eq!(proc.written_len(), 1);
    assert_eq!(proc.code(), b"x<!-- c -->y");
    assert_eq!(proc.accept_expect(), b'y');
    assert_eq!(&proc.code()[..2], b"xy");
}

#[test]
fn match_only_moves_nothing() {
    let mut proc = Processor::new(b"abc".to_vec());
    proc.skip_expect();
    let range = proc.m(MatchCond::While, ch(b'b'), MatchAction::MatchOnly);
    assert_eq!(range, ProcessorRange { start: 1, end: 2 });
    assert_eq!(proc.read_len(), 1);
    assert_eq!(proc.written_len(), 0);
}

#[test]
fn one_and_many_count_with_a_closure() {
    let mut proc = Processor::new(b"aab".to_vec());
    assert_eq!(proc._one(|c| c == b'a'), 1);
    assert_eq!(proc._one(|c| c == b'b'), 0);
    assert_eq!(proc._many(|c| c == b'a'), 2);
    assert_eq!(proc._many(|c| c != b'z'), 3);
    assert_eq!(proc._many(|c| c == b'b'), 0);
    proc.skip_amount_expect(3);
    assert_eq!(proc._one(|_| true), 0);
    assert_eq!(proc._many(|_| true), 0);
}

#[test]
fn single_pattern_finds_the_first_occurrence() {
    let pattern = SinglePattern::new(b"ab".to_vec());
    assert_eq!(pattern.len(), 2);
    assert_eq!(pattern.match_against(b"xxabab"), Some(2));
    assert_eq!(pattern.match_against(b"ab"), Some(0));
    assert_eq!(pattern.match_against(b"aab"), Some(1));
    assert_eq!(pattern.match_against(b"ba"), None);
    assert_eq!(pattern.match_against(b"a"), None);
    assert_eq!(pattern.match_against(b""), None);
    let empty = SinglePattern::new(Vec::new());
    assert_eq!(empty.match_against(b"abc"), Some(0));
    assert_eq!(empty.match_against(b""), Some(0));
}

fn sample_trie() -> Trie<u32> {
    let keys = vec![b"hell".to_vec(), b"hello".to_vec(), b"world".to_vec()];
    let values = vec![1u32, 2, 4];
    Trie::build(2, &keys, &values).unwrap()
}

#[test]
fn trie_finds_the_longest_key() {
    let trie = sample_trie();
    assert_eq!(trie.find(b"hello world!"), Some((4, 2)));
    assert_eq!(trie.find(b"hell's kitchen"), Some((3, 1)));
    assert_eq!(trie.find(b"world"), Some((4, 4)));
    assert_eq!(trie.find(b"worl"), None);
    assert_eq!(trie.find(b"help"), None);
    assert_eq!(trie.find(b""), None);
}

#[test]
fn trie_keeps_the_later_of_two_values_for_one_key() {
    let keys = vec![b"amp".to_vec(), b"lt".to_vec(), b"amp".to_vec()];
    let values = vec![b'a', b'<', b'&'];
    let trie = Trie::build(1, &keys, &values).unwrap();
    assert_eq!(trie.find(b"amp;"), Some((2, b'&')));
    assert_eq!(trie.find(b"lt;"), Some((1, b'<')));
}

#[test]
fn trie_never_matches_the_empty_key() {
    let keys = vec![Vec::new(), b"a".to_vec()];
    let values = vec![7u8, 8];
    let trie = Trie::build(1, &keys, &values).unwrap();
    assert_eq!(trie.find(b"b"), None);
    assert_eq!(trie.find(b""), None);
    assert_eq!(trie.find(b"ab"), Some((0, 8)));
}

#[test]
fn trie_build_refuses_bad_arguments() {
    let keys = vec![b"a".to_vec(), b"b".to_vec()];
    assert!(Trie::build(2, &keys, &vec![1u8]).is_none());
    assert!(Trie::build(0, &keys, &vec![1u8, 2]).is_none());
    assert!(Trie::build(5, &keys, &vec![1u8, 2]).is_none());
    assert!(Trie::build(4, &keys, &vec![1u8, 2]).is_some());
}

#[test]
fn trie_build_refuses_indices_too_narrow() {
    // One byte per index cannot address an image of some hundred bytes.
    let mut keys = Vec::new();
    let mut values = Vec::new();
    for i in 0..100u8 {
        keys.push(vec![b'k', i, i]);
        values.push(i);
    }
    assert!(Trie::build(1, &keys, &values).is_none());
    let trie = Trie::build(2, &keys, &values).unwrap();
    assert_eq!(trie.find(&[b'k', 42, 42, 0]), Some((2, 42)));
}

#[test]
fn index_fits_compares_with_the_index_range() {
    assert!(Trie::<u8>::index_fits(1, 255, 255));
    assert!(!Trie::<u8>::index_fits(1, 256, 0));
    assert!(!Trie::<u8>::index_fits(1, 0, 256));
    assert!(Trie::<u8>::index_fits(2, 65535, 0));
    assert!(!Trie::<u8>::index_fits(2, 65536, 0));
    assert!(!Trie::<u8>::index_fits(0, 0, 0));
    assert!(!Trie::<u8>::index_fits(5, 0, 0));
    assert!(Trie::<u8>::index_fits(4, 1 << 20, 1 << 20));
}

#[test]
fn m_trie_consumes_the_longest_key_as_the_action_says() {
    let trie = sample_trie();
    let mut proc = Processor::new(b"..hello world".to_vec());
    proc.skip_amount_expect(2);
    assert_eq!(proc.m_trie(&trie, MatchAction::MatchOnly), Some(2));
    assert_eq!(proc.read_len(), 2);
    assert_eq!(proc.written_len(), 0);
    assert_eq!(proc.m_trie(&trie, MatchAction::Keep), Some(2));
    assert_eq!(proc.read_len(), 7);
    assert_eq!(proc.written_len(), 5);
    assert_eq!(&proc.code()[..5], b"hello");
    assert_eq!(proc.m_trie(&trie, MatchAction::Discard), None);
    assert_eq!(proc.read_len(), 7);
    proc.skip_expect();
    assert_eq!(proc.m_trie(&trie, MatchAction::Discard), Some(4));
    assert_eq!(proc.read_len(), 13);
    assert_eq!(proc.written_len(), 5);
    assert!(proc.at_end());
    assert_eq!(proc.m_trie(&trie, MatchAction::Keep), None);
}

#[test]
fn assemble_refuses_what_indices_cannot_address() {
    assert!(Trie::<u8>::assemble(0, Vec::new(), Vec::new(), Vec::new()).is_none());
    assert!(Trie::<u8>::assemble(5, Vec::new(), Vec::new(), Vec::new()).is_none());
    assert!(Trie::<u8>::assemble(1, vec![0u8; 256], Vec::new(), Vec::new()).is_none());
    assert!(Trie::<u8>::assemble(1, Vec::new(), vec![0usize; 256], vec![0u8]).is_none());
}

#[test]
fn build_succeeds_where_the_indices_are_wide_enough() {
    let keys = vec![b"a".to_vec()];
    for width in 1..=4 {
        let trie = Trie::build(width, &keys, &vec![9u8]).unwrap();
        assert_eq!(trie.find(b"ab"), Some((0, 9)));
    }
    assert!(Trie::build(4, &Vec::new(), &Vec::<u8>::new()).is_some());
}
