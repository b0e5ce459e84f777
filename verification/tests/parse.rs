use stenografi::parsing::{parse, parse_lowercase, parse_with, parse_word, tokenise, ProcessedToken};
use stenografi::token::{alphabet, Token};

#[test]
fn every_line_has_a_sentence() {
    for line in ["", " ", "   ", "123", "!?#", " a ", "a  b", "\t\n", "ÅÄÖ", "漢字 かな", "a\u{0}b"] {
        assert!(parse(line).is_ok(), "{:?}", line);
    }
}

#[test]
fn empty_line_is_one_empty_word() {
    assert_eq!(parse(""), Ok(vec![vec![]]));
}

#[test]
fn line_of_delimiters_is_all_empty_words() {
    assert_eq!(parse("   "), Ok(vec![vec![], vec![], vec![], vec![]]));
}

#[test]
fn line_of_unmapped_characters_is_one_empty_word() {
    assert_eq!(parse("123!?"), Ok(vec![vec![]]));
}

#[test]
fn consecutive_delimiters_give_an_empty_word() {
    let sentence = parse("a b  c").unwrap();
    assert_eq!(sentence.len(), 4);
    assert!(sentence[2].is_empty());
    assert_eq!(sentence, vec![vec![Token::A], vec![Token::B], vec![], vec![Token::C]]);
}

#[test]
fn leading_and_trailing_delimiters_are_kept() {
    assert_eq!(parse(" a"), Ok(vec![vec![], vec![Token::A]]));
    assert_eq!(parse("a "), Ok(vec![vec![Token::A], vec![]]));
    assert_eq!(parse(" a "), Ok(vec![vec![], vec![Token::A], vec![]]));
}

#[test]
fn only_the_space_delimits() {
    assert_eq!(parse("a\tb\nc"), Ok(vec![vec![Token::A, Token::B, Token::C]]));
}

#[test]
fn digraph_wins_over_its_letters() {
    let order = [Token::BR, Token::B, Token::R];
    assert_eq!(parse_with(&order, "br"), vec![vec![Token::BR]]);
    assert_ne!(parse_with(&order, "br"), vec![vec![Token::B, Token::R]]);
}

#[test]
fn declared_order_reads_the_digraph() {
    assert_eq!(parse("br"), Ok(vec![vec![Token::BR]]));
    assert_eq!(parse("abra"), Ok(vec![vec![Token::A, Token::BR, Token::A]]));
    assert_eq!(parse("b r"), Ok(vec![vec![Token::B], vec![Token::R]]));
    assert_eq!(parse("rb"), Ok(vec![vec![Token::R, Token::B]]));
}

#[test]
fn reordered_alphabet_reads_the_letters() {
    let reordered = [Token::B, Token::BR, Token::R];
    assert_eq!(parse_with(&reordered, "br"), vec![vec![Token::B, Token::R]]);
    let declared = alphabet();
    assert_eq!(parse_with(&declared, "br"), vec![vec![Token::BR]]);
}

#[test]
fn whole_word_symbol_wins_over_its_letters() {
    assert_eq!(parse("stenografi"), Ok(vec![vec![Token::STENOGRAFI]]));
    let order = [Token::STENOGRAFI, Token::S, Token::T, Token::E, Token::N, Token::O, Token::G,
        Token::R, Token::A, Token::F, Token::I];
    assert_eq!(parse_with(&order, "stenografi"), vec![vec![Token::STENOGRAFI]]);
}

#[test]
fn whole_word_symbol_declared_last_is_never_read() {
    let order = [Token::S, Token::T, Token::E, Token::N, Token::O, Token::G, Token::R, Token::A,
        Token::F, Token::I, Token::STENOGRAFI];
    assert_eq!(
        parse_with(&order, "stenografi"),
        vec![vec![
            Token::S, Token::T, Token::E, Token::N, Token::O, Token::G, Token::R, Token::A,
            Token::F, Token::I,
        ]]
    );
}

#[test]
fn whole_word_symbol_inside_a_longer_chunk() {
    assert_eq!(parse("stenografin"), Ok(vec![vec![Token::STENOGRAFI, Token::N]]));
    assert_eq!(
        parse("stenograf"),
        Ok(vec![vec![
            Token::S, Token::T, Token::E, Token::N, Token::O, Token::G, Token::R, Token::A,
            Token::F,
        ]])
    );
}

#[test]
fn unmatched_character_is_skipped() {
    assert_eq!(parse("a1e"), Ok(vec![vec![Token::A, Token::E]]));
    assert_eq!(parse("1a"), Ok(vec![vec![Token::A]]));
    assert_eq!(parse("a1"), Ok(vec![vec![Token::A]]));
    assert_eq!(parse("a123e"), Ok(vec![vec![Token::A, Token::E]]));
}

#[test]
fn unmatched_character_of_several_bytes_is_skipped_whole() {
    assert_eq!(parse("a€e"), Ok(vec![vec![Token::A, Token::E]]));
    assert_eq!(parse("b漢r"), Ok(vec![vec![Token::B, Token::R]]));
}

#[test]
fn unmatched_character_parts_a_digraph() {
    assert_eq!(parse("b-r"), Ok(vec![vec![Token::B, Token::R]]));
}

#[test]
fn upper_case_reads_as_lower_case() {
    assert_eq!(parse("BR"), parse("br"));
    assert_eq!(parse("BR"), Ok(vec![vec![Token::BR]]));
    assert_eq!(parse("Stenografi A"), Ok(vec![vec![Token::STENOGRAFI], vec![Token::A]]));
}

#[test]
fn accented_vowels_among_other_characters() {
    assert_eq!(parse("åa"), Ok(vec![vec![Token::AO, Token::A]]));
    assert_eq!(parse("€å漢ä-ö"), Ok(vec![vec![Token::AO, Token::AE, Token::OO]]));
    assert_eq!(parse("räksmörgås"), Ok(vec![vec![
        Token::R, Token::AE, Token::K, Token::S, Token::M, Token::OO, Token::R, Token::G,
        Token::AO, Token::S,
    ]]));
    assert_eq!(parse("å ä ö"), Ok(vec![vec![Token::AO], vec![Token::AE], vec![Token::OO]]));
}

#[test]
fn accented_vowels_are_read() {
    assert_eq!(parse("åäö"), Ok(vec![vec![Token::AO, Token::AE, Token::OO]]));
    assert_eq!(parse("ÅÄÖ"), Ok(vec![vec![Token::AO, Token::AE, Token::OO]]));
    assert_eq!(parse("föräldrar"), Ok(vec![vec![
        Token::F, Token::OO, Token::R, Token::AE, Token::L, Token::D, Token::R, Token::A, Token::R,
    ]]));
}

#[test]
fn folding_may_lengthen_the_line() {
    // The capital I with a dot above folds to an `i` and a combining dot.
    assert_eq!(parse("\u{130}"), Ok(vec![vec![Token::I]]));
}

#[test]
fn every_letter_of_the_alphabet_is_read() {
    assert_eq!(
        parse("aeiouy bcdfghjklmnpqrstvwxz"),
        Ok(vec![
            vec![Token::A, Token::E, Token::I, Token::O, Token::U, Token::Y],
            vec![
                Token::B, Token::C, Token::D, Token::F, Token::G, Token::H, Token::J, Token::K,
                Token::L, Token::M, Token::N, Token::P, Token::Q, Token::R, Token::S, Token::T,
                Token::V, Token::W, Token::X, Token::Z,
            ],
        ])
    );
}

#[test]
fn parse_lowercase_does_not_fold() {
    let order = alphabet();
    assert_eq!(parse_lowercase(&order, "BR"), vec![Vec::<Token>::new()]);
    assert_eq!(parse_lowercase(&order, "br"), vec![vec![Token::BR]]);
    assert_eq!(parse_lowercase(&order, "aB e"), vec![vec![Token::A], vec![Token::E]]);
}

#[test]
fn empty_alphabet_reads_nothing() {
    assert_eq!(parse_with(&[], "br a"), vec![Vec::<Token>::new(), Vec::new()]);
}

#[test]
fn parse_word_reads_one_chunk() {
    let order = alphabet();
    assert_eq!(parse_word(&order, ""), Vec::<Token>::new());
    assert_eq!(parse_word(&order, "bra"), vec![Token::BR, Token::A]);
    // A word is read from a chunk: a delimiter in it is one more unmatched character.
    assert_eq!(parse_word(&order, "b r"), vec![Token::B, Token::R]);
}

#[test]
fn tokenise_finds_the_first_symbol_in_order() {
    let order = alphabet();
    assert_eq!(
        tokenise(&order, "bra"),
        Err(ProcessedToken { consumed_chars: 2, token: Token::BR })
    );
    assert_eq!(
        tokenise(&order, "ba"),
        Err(ProcessedToken { consumed_chars: 1, token: Token::B })
    );
    assert_eq!(
        tokenise(&order, "stenografisk"),
        Err(ProcessedToken { consumed_chars: 10, token: Token::STENOGRAFI })
    );
}

#[test]
fn tokenise_counts_bytes() {
    let order = alphabet();
    assert_eq!(
        tokenise(&order, "åa"),
        Err(ProcessedToken { consumed_chars: 2, token: Token::AO })
    );
    assert_eq!(
        tokenise(&order, "ö"),
        Err(ProcessedToken { consumed_chars: 2, token: Token::OO })
    );
    for input in ["åa", "äbr", "ö", "bra", "stenografisk", "a€"] {
        match tokenise(&order, input) {
            Err(found) => {
                assert_eq!(found.consumed_chars, found.token.as_str().len());
                assert!(input.is_char_boundary(found.consumed_chars));
                let (start, rest) = input.split_at(found.consumed_chars);
                assert_eq!(start, found.token.as_str());
                assert_eq!(format!("{}{}", start, rest), input);
            }
            Ok(()) => panic!("no symbol at the start of {:?}", input),
        }
    }
    assert_eq!("åa".split_at(2).1, "a");
}

#[test]
fn tokenise_matches_at_the_start_only() {
    let order = alphabet();
    assert_eq!(tokenise(&order, "1br"), Ok(()));
    assert_eq!(tokenise(&order, ""), Ok(()));
    assert_eq!(tokenise(&order, " a"), Ok(()));
    assert_eq!(tokenise(&[Token::BR], "b"), Ok(()));
    assert_eq!(tokenise(&[Token::BR], "abr"), Ok(()));
    assert_eq!(tokenise(&[], "a"), Ok(()));
}

#[test]
fn tokenise_takes_the_earlier_symbol_not_the_longer() {
    assert_eq!(
        tokenise(&[Token::B, Token::BR], "br"),
        Err(ProcessedToken { consumed_chars: 1, token: Token::B })
    );
    assert_eq!(
        tokenise(&[Token::BR, Token::B], "br"),
        Err(ProcessedToken { consumed_chars: 2, token: Token::BR })
    );
}

#[test]
fn unmatched_character_parts_the_scan_in_two() {
    let order = alphabet();
    for (before, after) in [("", ""), ("br", "br"), ("stenograf", "i"), ("ab", "ra"), ("b", "r")] {
        for unmatched in ['1', '-', '€', ' '] {
            let whole = format!("{}{}{}", before, unmatched, after);
            let mut expected = parse_word(&order, before);
            expected.extend(parse_word(&order, after));
            assert_eq!(parse_word(&order, &whole), expected);
        }
    }
}

#[test]
fn word_text_is_the_chunk_where_nothing_is_skipped() {
    let order = alphabet();
    for chunk in ["", "bra", "stenografi", "åäö", "br1", "a-b", "BR"] {
        let word = parse_word(&order, chunk);
        let text: String = word.iter().map(|symbol| symbol.as_str()).collect();
        let skipped = chunk.chars().any(|c| !c.is_lowercase());
        assert!(text.chars().count() <= chunk.chars().count());
        assert_eq!(text == chunk, !skipped);
    }
}

#[test]
fn shadowed_symbol_is_never_read() {
    let reordered = [Token::R, Token::B, Token::BR, Token::A];
    for line in ["br", "abra", "brbr", "bbr", "rbr a br"] {
        for word in parse_with(&reordered, line) {
            assert!(!word.contains(&Token::BR));
        }
    }
}

#[test]
fn every_symbol_reads_as_itself_in_declared_order() {
    for symbol in alphabet() {
        assert_eq!(parse(symbol.as_str()), Ok(vec![vec![symbol]]));
    }
}

#[test]
fn sentence_has_one_word_more_than_delimiters() {
    for line in ["", " ", "a b  c", "  br  ", "1 2 3", "stenografi"] {
        let delimiters = line.chars().filter(|c| *c == ' ').count();
        assert_eq!(parse(line).unwrap().len(), delimiters + 1);
    }
}
