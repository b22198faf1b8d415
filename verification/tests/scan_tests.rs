use music_grammar::scan::{
    consume, ConsumeScanner, FractionScanner, GrammarScanner, InstrumentScanner, MetaControlScanner,
    MusicPrimitiveRepeatScanner, MusicPrimitiveScanner, MusicStringScanner, MusicTransformScanner,
    NonTerminalScanner, NoteScanner, NoteValueScanner, ProductionScanner, ScanContext, Scanner,
    SymbolScanner, TerminalScanner, VolumeScanner,
};
use music_grammar::scan::{disjoint, kleene, scan_map, scan_map_input, trim, ScanError, SpaceScanner, StringScanner};
use music_grammar::cfg::{Symbol, Terminal, TerminalNote};
use music_grammar::ratio::SignedRatio;


#[test]
fn test_1() {
    let input = "start S\nS = [x3][:4c<1> :4d :_ :f# :g :c ::i=piano B]\nB = :0c";
    let scanner = consume(GrammarScanner);
    let result = scanner.scan(input);
    println!("result: {result:#?}");
    assert!(result.is_ok());
}

#[test]
fn test_instrument() {
    let input = "piano";
    let scanner = ConsumeScanner(InstrumentScanner);
    let result = scanner.scan(input);
    println!("result: {result:#?}");
    assert!(result.is_ok());
}

#[test]
fn test_duration() {
    let input = "<1/4>";
    let scanner = ConsumeScanner(NoteValueScanner(ScanContext::default()));
    let result = scanner.scan(input);
    println!("result: {result:#?}");
    assert!(result.is_ok());
}

#[test]
fn test_fraction() {
    let input = "3/4";
    let scanner = consume(FractionScanner);
    let result = scanner.scan(input).unwrap().0;
    assert_eq!(result, SignedRatio::new(3, 4));
}

#[test]
fn test_fraction_2() {
    let input = "-3/4";
    let scanner = consume(FractionScanner);
    let result = scanner.scan(input).unwrap().0;
    assert_eq!(result, SignedRatio::new(-3, 4));
}

#[test]
fn test_fraction_3() {
    let input = "3";
    let scanner = consume(FractionScanner);
    let result = scanner.scan(input).unwrap().0;
    assert_eq!(result, SignedRatio::new(3, 1));
}

#[test]
fn test_volume() {
    let input = "20";
    let scanner = ConsumeScanner(VolumeScanner);
    let result = scanner.scan(input);
    println!("result: {result:#?}");
    assert!(result.is_ok());
}

#[test]
fn test_note() {
    let input = "4c#";
    let scanner = ConsumeScanner(NoteScanner);
    let result = scanner.scan(input);
    println!("result: {result:#?}");
    assert!(result.is_ok());
}

#[test]
fn test_rest() {
    let input = "_";
    let scanner = ConsumeScanner(NoteScanner);
    let result = scanner.scan(input);
    println!("result: {result:#?}");
    assert!(result.is_ok());
}

#[test]
fn test_meta_control() {
    let input = "i=piano";
    let scanner = ConsumeScanner(MetaControlScanner);
    let result = scanner.scan(input);
    println!("result: {result:#?}");
    assert!(result.is_ok());
}

#[test]
fn test_meta_control_terminal() {
    let input = ":i=piano";
    let scanner = ConsumeScanner(TerminalScanner(ScanContext::default()));
    let result = scanner.scan(input);
    println!("result: {result:#?}");
    assert!(result.is_ok());
}

#[test]
fn test_terminal() {
    let input = "4c<1>";
    let scanner = ConsumeScanner(TerminalScanner(ScanContext::default()));
    let result = scanner.scan(input);
    println!("result: {result:#?}");
    assert!(result.is_ok());
}

#[test]
fn test_nonterminal() {
    let input = "S-b";
    let scanner = ConsumeScanner(NonTerminalScanner);
    let result = scanner.scan(input);
    println!("result: {result:#?}");
    assert!(result.is_ok());
}

#[test]
fn symbol_scanner_1() {
    let input = ":bb";
    let scanner = ConsumeScanner(SymbolScanner(ScanContext::default()));
    let result = scanner.scan(input);
    println!("result: {result:#?}");
    assert!(result.is_ok());
}

#[test]
fn symbol_scanner_2() {
    let input = "::i=piano";
    let scanner = ConsumeScanner(SymbolScanner(ScanContext::default()));
    let result = scanner.scan(input);
    println!("result: {result:#?}");
    assert!(result.is_ok());
}

#[test]
fn symbol_scanner_3() {
    let input = "T";
    let scanner = ConsumeScanner(SymbolScanner(ScanContext::default()));
    let result = scanner.scan(input);
    println!("result: {result:#?}");
    assert!(result.is_ok());
}

#[test]
fn symbol_scanner_4() {
    let input = "(";
    let scanner = ConsumeScanner(SymbolScanner(ScanContext::default()));
    let result = scanner.scan(input);
    println!("result: {result:#?}");
    assert!(result.is_err());
}

#[test]
fn symbol_scanner_5() {
    // test for current sound
    let input = ".<1/4>";
    let scanner = ConsumeScanner(SymbolScanner(ScanContext::default()));
    let result = scanner.scan(input);
    println!("result: {result:#?}");
    assert!(result.is_ok());
    assert!(matches!(result.unwrap().0, Symbol::T(Terminal::CurrentSound { .. })));
}

#[test]
fn symbol_scanner_6() {
    // test for rest sound
    let input = "*<1/2>";
    let scanner = ConsumeScanner(SymbolScanner(ScanContext::default()));
    let result = scanner.scan(input);
    println!("result: {result:#?}");
    assert!(result.is_ok());
    assert!(matches!(result.unwrap().0, Symbol::T(Terminal::AbsoluteSound { note: TerminalNote::Rest, .. })));
}

#[test]
fn symbol_scanner_7() {
    // test for pitch up
    let input = "+";
    let scanner = ConsumeScanner(SymbolScanner(ScanContext::default()));
    let result = scanner.scan(input);
    println!("result: {result:#?}");
    assert!(result.is_ok());
    assert!(matches!(result.unwrap().0, Symbol::T(Terminal::MovePitch { semitones: 1 })));
}

#[test]
fn symbol_scanner_8() {
    // test for pitch down
    let input = "-";
    let scanner = ConsumeScanner(SymbolScanner(ScanContext::default()));
    let result = scanner.scan(input);
    println!("result: {result:#?}");
    assert!(result.is_ok());
    assert!(matches!(result.unwrap().0, Symbol::T(Terminal::MovePitch { semitones: -1 })));
}

#[test]
fn symbol_scanner_9() {
    // test for ambiguous input (non-terminals starting with -)
    let input = "-S";
    let scanner = ConsumeScanner(SymbolScanner(ScanContext::default()));
    let result = scanner.scan(input);
    println!("result: {result:#?}");
    assert!(result.is_err());
}

#[test]
fn primitive_scanner_1() {
    let input = "(";
    let scanner = MusicPrimitiveScanner(ScanContext::default());
    let result = scanner.scan(input);
    println!("result: {result:#?}");
    assert!(result.is_err());
}

#[test]
fn primitive_scanner_2() {
    let input = "[x2][(]";
    let scanner = MusicPrimitiveRepeatScanner(ScanContext::default());
    let result = scanner.scan(input);
    println!("result: {result:#?}");
    assert!(result.is_err());
}

#[test]
fn music_string_scanner_0() {
    // without any repeats or splits so far
    let input = ":4c<1> :4d :_ :f# :g :c ::i=piano Ba-c";
    let scanner = ConsumeScanner(MusicStringScanner(ScanContext::default()));
    let result = scanner.scan(input);
    println!("result: {result:#?}");
    assert!(result.is_ok());
}

#[test]
fn music_string_scanner_1() {
    // without any repeats or splits so far
    let input = ":4c<1> :4d :_ :f# :g :c ::i=piano B";
    let scanner = ConsumeScanner(MusicStringScanner(ScanContext::default()));
    let result = scanner.scan(input);
    println!("result: {result:#?}");
    assert!(result.is_ok());
}

#[test]
fn music_string_scanner_2() {
    let input = ":4c<1> + :4d .<1/4> :_ * :f# :g :c ::i=piano B - +";
    let scanner = ConsumeScanner(MusicStringScanner(ScanContext::default()));
    let result = scanner.scan(input);
    println!("result: {result:#?}");
    assert!(result.is_ok());
}

#[test]
fn weird_music_string_scanner_1() {
    // just need to acknowledge this unexpected parsing behavior
    // if anyone sees this, go fix parsing for SymbolScanner to peek for non-terminal symbols after the -
    // it's technically parsed as 2 symbols: '-' and 'S'
    let input = "-S";
    let scanner = ConsumeScanner(MusicStringScanner(ScanContext::default()));
    let result = scanner.scan(input);
    println!("result: {result:#?}");
    assert_eq!(result.unwrap().0.0.len(), 2);
}

#[test]
fn music_transform_scanner_1() {
    let input = "x3";
    let scanner = ConsumeScanner(MusicTransformScanner(ScanContext::default()));
    let result = scanner.scan(input);
    println!("result: {result:#?}");
    assert!(result.is_ok());
}

#[test]
fn music_transform_scanner_2() {
    let input = "T1";
    let scanner = ConsumeScanner(MusicTransformScanner(ScanContext::default()));
    let result = scanner.scan(input);
    println!("result: {result:#?}");
    assert!(result.is_ok());
}

#[test]
fn music_transform_scanner_3() {
    let input = "T-1";
    let scanner = ConsumeScanner(MusicTransformScanner(ScanContext::default()));
    let result = scanner.scan(input);
    println!("result: {result:#?}");
    assert!(result.is_ok());
}

#[test]
fn music_primitive_repeat_scanner() {
    let input = "[x3][:4c<1> :4d :_ :f# :g :c ::i=piano B]";
    let scanner = ConsumeScanner(MusicPrimitiveRepeatScanner(ScanContext::default()));
    let result = scanner.scan(input);
    println!("result: {result:#?}");
    assert!(result.is_ok());
}

#[test]
fn music_primitive_repeat_bad_string_test_1() {
    let input = "[x3][nont( nont2]";
    let scanner = ConsumeScanner(MusicPrimitiveRepeatScanner(ScanContext::default()));
    let result = scanner.scan(input);
    println!("result: {result:#?}");
    assert!(result.is_err());
}

#[test]
fn music_primitive_split_scanner() {
    let input = "{:4c<1> :4d :_ :f# :g :c ::i=piano B | :4c<1> :4d :_ :f# :g :c ::i=piano B }";
    let scanner = ConsumeScanner(MusicPrimitiveScanner(ScanContext::default()));
    let result = scanner.scan(input);
    println!("result: {result:#?}");
    assert!(result.is_ok());
}

#[test]
fn music_string_split_scanner() {
    // with splits and repeats
    let input = "{:4c<1> :4d :_ :f# :g :c ::i=piano B | [x3][:4c<1> :4d :_ :f# :g :c ::i=piano B]}";
    let scanner = ConsumeScanner(MusicStringScanner(ScanContext::default()));
    let result = scanner.scan(input);
    println!("result: {result:#?}");
    assert!(result.is_ok());
}

#[test]
fn production_scanner_1() {
    let input = "S = [x3][:4c<1> :4d :_ :f# :g :c ::i=piano B]";
    let scanner = ConsumeScanner(ProductionScanner(ScanContext::default()));
    let result = scanner.scan(input);
    println!("result: {result:#?}");
    assert!(result.is_ok());
}

#[test]
fn combinators_trim_map_and_repeat() {
    let (name, rest) = trim(NonTerminalScanner).scan("   Melody  ").unwrap();
    assert_eq!(name, "Melody");
    assert_eq!(rest, "");
    let (len, rest) = scan_map(NonTerminalScanner, |s: String| s.len()).scan("Abc rest").unwrap();
    assert_eq!(len, 3);
    assert_eq!(rest, " rest");
    let (words, rest) = kleene(music_grammar::scan::concat(StringScanner("ab".to_string()), SpaceScanner)).scan("ab ab  abc").unwrap();
    assert_eq!(words.len(), 2);
    assert_eq!(rest, "abc");
    let (word, rest) = scan_map_input(StringScanner("x".to_string()), |s: &str| &s[1..]).scan("-xy").unwrap();
    assert_eq!(word, "x");
    assert_eq!(rest, "y");
}

#[test]
fn scan_error_variants() {
    let choice = disjoint("a".to_string(), StringScanner("a".to_string()), Some("b".to_string()), StringScanner("b".to_string()));
    match choice.scan("c") {
        Err(ScanError::ExpectedEither(a, b)) => {
            assert_eq!(a, "a");
            assert_eq!(b, "b");
        }
        _ => panic!("expected ExpectedEither"),
    }
    assert_eq!(choice.scan("bx").unwrap().1, "x");
    match consume(StringScanner("a".to_string())).scan("ab") {
        Err(ScanError::Generic(m)) => assert_eq!(m, "Did not consume entire input"),
        _ => panic!("expected a generic error"),
    }
}
