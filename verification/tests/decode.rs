use maze::algorithms::decode::{
    choose_algorithm, decode, find_names, find_params, match_name, parse_number, split_fields, split_first,
    DecodeError, NameHits, ParamHits,
};
use maze::{Algorithm, Bias, CellSelection, Scan};

fn no_names() -> NameHits {
    NameHits {
        prims: false,
        growing_tree: false,
        binary_tree: false,
        sidewinder: false,
        recursive_backtracking: false,
        ellers: false,
        kruskals: false,
        recursive_division: false,
        hunt_kill: false,
    }
}

fn no_params() -> ParamHits {
    ParamHits {
        newest: false,
        oldest: false,
        random: false,
        newest_oldest: false,
        newest_random: false,
        oldest_random: false,
        northeast: false,
        northwest: false,
        southeast: false,
        southwest: false,
        horizontal: false,
        vertical: false,
    }
}

#[test]
fn split_first_cuts_at_the_first_comma() {
    assert_eq!(split_first("a,b,c"), ("a", Some("b,c")));
    assert_eq!(split_first("abc"), ("abc", None));
    assert_eq!(split_first(",x"), ("", Some("x")));
    assert_eq!(split_first("x,"), ("x", Some("")));
    assert_eq!(split_first(""), ("", None));
    assert_eq!(split_first("\u{e9}t\u{e9},\u{fc}"), ("\u{e9}t\u{e9}", Some("\u{fc}")));
}

#[test]
fn split_fields_takes_one_to_three_fields() {
    let one = split_fields("prims").unwrap();
    assert_eq!((one.algorithm, one.param, one.value), ("prims", "", ""));
    let two = split_fields("binary,northwest").unwrap();
    assert_eq!((two.algorithm, two.param, two.value), ("binary", "northwest", ""));
    let three = split_fields("growing,newestoldest,40").unwrap();
    assert_eq!((three.algorithm, three.param, three.value), ("growing", "newestoldest", "40"));
    let odd = split_fields("a:,:b").unwrap();
    assert_eq!((odd.algorithm, odd.param), ("a:", ":b"));
}

#[test]
fn split_fields_refuses_other_shapes() {
    for text in ["", ",", "a,", ",a", "a,,b", "a,b,", "a,b,c,d", "a,b,c,", ",,"].iter() {
        assert!(split_fields(text).is_none());
    }
}

#[test]
fn parse_number_reads_decimal_digits() {
    assert_eq!(parse_number("40"), Some(40));
    assert_eq!(parse_number("0"), Some(0));
    assert_eq!(parse_number("007"), Some(7));
    assert_eq!(parse_number("+7"), Some(7));
    assert_eq!(parse_number("100"), Some(100));
    assert_eq!(parse_number(&usize::MAX.to_string()), Some(usize::MAX));
}

#[test]
fn parse_number_refuses_what_is_no_number() {
    for text in ["", "+", "-1", "4x", "x4", " 5", "5 ", "++5", "4+", "1.5", "\u{664}"].iter() {
        assert_eq!(parse_number(text), None);
        assert!(text.parse::<usize>().is_err());
    }
}

#[test]
fn parse_number_refuses_what_does_not_fit() {
    let mut above = usize::MAX.to_string();
    above.push('0');
    assert_eq!(parse_number(&above), None);
    assert_eq!(parse_number("99999999999999999999999999999999999999999"), None);
    // One more than the greatest.
    let digits = usize::MAX.to_string();
    let (front, last) = digits.split_at(digits.len() - 1);
    let next = format!("{}{}", front, last.parse::<u32>().unwrap() + 1);
    assert_eq!(parse_number(&next), None);
}

#[test]
fn parse_number_agrees_with_the_standard_parser() {
    for text in ["1", "12", "+12", "0012", "18446744073709551615", "18446744073709551616", "4294967295", "4294967296"]
        .iter()
    {
        assert_eq!(parse_number(text), text.parse::<usize>().ok());
    }
}

#[test]
fn match_name_takes_the_field_as_a_prefix() {
    assert_eq!(match_name("Prims", "PrimsAlgorithm"), Some(true));
    assert_eq!(match_name("prims", "PrimsAlgorithm"), Some(true));
    assert_eq!(match_name("PRI", "PrimsAlgorithm"), Some(true));
    assert_eq!(match_name("", "PrimsAlgorithm"), Some(true));
    assert_eq!(match_name("rims", "PrimsAlgorithm"), Some(false));
    assert_eq!(match_name("PrimsAlgorithmX", "PrimsAlgorithm"), Some(false));
    assert_eq!(match_name("kruskal", "PrimsAlgorithm"), Some(false));
}

#[test]
fn match_name_takes_the_field_as_a_pattern() {
    assert_eq!(match_name("p.*m", "PrimsAlgorithm"), Some(true));
    assert_eq!(match_name("[gh]", "GrowingTree"), Some(true));
    assert_eq!(match_name("[gh]", "HuntKillAlgorithm"), Some(true));
    assert_eq!(match_name("[gh]", "BinaryTree"), Some(false));
    assert_eq!(match_name("(", "PrimsAlgorithm"), None);
    assert_eq!(match_name("[a", "PrimsAlgorithm"), None);
    assert_eq!(match_name(")", ""), None);
    assert_eq!(match_name("^*", ""), Some(true));
}

#[test]
fn find_names_marks_every_name_that_fits() {
    let hits = find_names("recursive");
    assert!(hits.recursive_backtracking && hits.recursive_division);
    assert!(!hits.prims && !hits.growing_tree && !hits.binary_tree && !hits.sidewinder);
    assert!(!hits.ellers && !hits.kruskals && !hits.hunt_kill);
    let all = find_names("");
    assert!(all.prims && all.growing_tree && all.binary_tree && all.sidewinder && all.recursive_backtracking);
    assert!(all.ellers && all.kruskals && all.recursive_division && all.hunt_kill);
    let params = find_params("newest");
    assert!(params.newest && params.newest_oldest && params.newest_random);
    assert!(!params.oldest && !params.random && !params.oldest_random);
    assert!(!params.northeast && !params.horizontal && !params.vertical);
    let south = find_params("south");
    assert!(south.southeast && south.southwest && !south.northeast && !south.northwest);
}

#[test]
fn choose_algorithm_takes_the_first_name() {
    let mut names = no_names();
    assert_eq!(choose_algorithm(&names, &no_params(), None), None);
    names.hunt_kill = true;
    assert_eq!(choose_algorithm(&names, &no_params(), None), Some(Algorithm::HuntKillAlgorithm));
    names.recursive_division = true;
    assert_eq!(choose_algorithm(&names, &no_params(), None), Some(Algorithm::RecursiveDivision));
    names.kruskals = true;
    assert_eq!(choose_algorithm(&names, &no_params(), Some(3)), Some(Algorithm::KruskalsAlgorithm));
    names.recursive_backtracking = true;
    assert_eq!(choose_algorithm(&names, &no_params(), None), Some(Algorithm::RecursiveBacktracking));
    names.prims = true;
    assert_eq!(choose_algorithm(&names, &no_params(), None), Some(Algorithm::PrimsAlgorithm));
}

#[test]
fn choose_algorithm_needs_a_fitting_parameter() {
    let mut names = no_names();
    names.binary_tree = true;
    names.hunt_kill = true;
    let mut params = no_params();
    // The first name that fits decides, with or without its parameter.
    assert_eq!(choose_algorithm(&names, &params, None), None);
    params.horizontal = true;
    assert_eq!(choose_algorithm(&names, &params, None), None);
    params.southwest = true;
    assert_eq!(choose_algorithm(&names, &params, None), Some(Algorithm::BinaryTree(Bias::Southwest)));
    params.northwest = true;
    assert_eq!(choose_algorithm(&names, &params, None), Some(Algorithm::BinaryTree(Bias::Northwest)));
    names.binary_tree = false;
    names.ellers = true;
    params.vertical = true;
    assert_eq!(choose_algorithm(&names, &params, None), Some(Algorithm::EllersAlgorithm(Scan::Horizontal)));
    params.horizontal = false;
    assert_eq!(choose_algorithm(&names, &params, None), Some(Algorithm::EllersAlgorithm(Scan::Vertical)));
    names.sidewinder = true;
    assert_eq!(choose_algorithm(&names, &params, None), Some(Algorithm::SidewinderAlgorithm(Scan::Vertical)));
}

#[test]
fn choose_algorithm_mixed_policies_need_a_number() {
    let mut names = no_names();
    names.growing_tree = true;
    let mut params = no_params();
    params.newest = true;
    params.newest_oldest = true;
    params.newest_random = true;
    assert_eq!(choose_algorithm(&names, &params, None), Some(Algorithm::GrowingTree(CellSelection::Newest)));
    assert_eq!(
        choose_algorithm(&names, &params, Some(40)),
        Some(Algorithm::GrowingTree(CellSelection::NewestOldest(40)))
    );
    params.newest_oldest = false;
    assert_eq!(
        choose_algorithm(&names, &params, Some(20)),
        Some(Algorithm::GrowingTree(CellSelection::NewestRandom(20)))
    );
    let mut only_mixed = no_params();
    only_mixed.oldest_random = true;
    assert_eq!(choose_algorithm(&names, &only_mixed, None), None);
    assert_eq!(
        choose_algorithm(&names, &only_mixed, Some(50)),
        Some(Algorithm::GrowingTree(CellSelection::OldestRandom(50)))
    );
    let mut plain = no_params();
    plain.random = true;
    assert_eq!(choose_algorithm(&names, &plain, Some(9)), Some(Algorithm::GrowingTree(CellSelection::Random)));
    plain.oldest = true;
    assert_eq!(choose_algorithm(&names, &plain, None), Some(Algorithm::GrowingTree(CellSelection::Oldest)));
}

#[test]
fn decode_reads_full_names() {
    assert_eq!(decode("PrimsAlgorithm"), Ok(Algorithm::PrimsAlgorithm));
    assert_eq!(decode("RecursiveBacktracking"), Ok(Algorithm::RecursiveBacktracking));
    assert_eq!(decode("RecursiveDivision"), Ok(Algorithm::RecursiveDivision));
    assert_eq!(decode("KruskalsAlgorithm"), Ok(Algorithm::KruskalsAlgorithm));
    assert_eq!(decode("HuntKillAlgorithm"), Ok(Algorithm::HuntKillAlgorithm));
    assert_eq!(decode("BinaryTree,Southeast"), Ok(Algorithm::BinaryTree(Bias::Southeast)));
    assert_eq!(decode("EllersAlgorithm,Vertical"), Ok(Algorithm::EllersAlgorithm(Scan::Vertical)));
    assert_eq!(decode("SidewinderAlgorithm,Horizontal"), Ok(Algorithm::SidewinderAlgorithm(Scan::Horizontal)));
    assert_eq!(decode("GrowingTree,Oldest"), Ok(Algorithm::GrowingTree(CellSelection::Oldest)));
    assert_eq!(decode("GrowingTree,NewestOldest,40"), Ok(Algorithm::GrowingTree(CellSelection::NewestOldest(40))));
    assert_eq!(decode("GrowingTree,NewestRandom,20"), Ok(Algorithm::GrowingTree(CellSelection::NewestRandom(20))));
    assert_eq!(decode("GrowingTree,OldestRandom,50"), Ok(Algorithm::GrowingTree(CellSelection::OldestRandom(50))));
}

#[test]
fn decode_reads_names_cut_short() {
    assert_eq!(decode("p"), Ok(Algorithm::PrimsAlgorithm));
    assert_eq!(decode("prims"), Ok(Algorithm::PrimsAlgorithm));
    assert_eq!(decode("K"), Ok(Algorithm::KruskalsAlgorithm));
    assert_eq!(decode("h"), Ok(Algorithm::HuntKillAlgorithm));
    assert_eq!(decode("r"), Ok(Algorithm::RecursiveBacktracking));
    assert_eq!(decode("recursived"), Ok(Algorithm::RecursiveDivision));
    assert_eq!(decode("b,southw"), Ok(Algorithm::BinaryTree(Bias::Southwest)));
    assert_eq!(decode("b,n"), Ok(Algorithm::BinaryTree(Bias::Northeast)));
    assert_eq!(decode("s,v"), Ok(Algorithm::SidewinderAlgorithm(Scan::Vertical)));
    assert_eq!(decode("e,h"), Ok(Algorithm::EllersAlgorithm(Scan::Horizontal)));
    assert_eq!(decode("g,r"), Ok(Algorithm::GrowingTree(CellSelection::Random)));
    assert_eq!(decode("g,newest,40"), Ok(Algorithm::GrowingTree(CellSelection::NewestOldest(40))));
    assert_eq!(decode("g,newestr,20"), Ok(Algorithm::GrowingTree(CellSelection::NewestRandom(20))));
    assert_eq!(decode("g,o,50"), Ok(Algorithm::GrowingTree(CellSelection::OldestRandom(50))));
    assert_eq!(decode("g,random,7"), Ok(Algorithm::GrowingTree(CellSelection::Random)));
}

#[test]
fn decode_without_a_parameter_takes_the_first() {
    assert_eq!(decode("growing"), Ok(Algorithm::GrowingTree(CellSelection::Newest)));
    assert_eq!(decode("binary"), Ok(Algorithm::BinaryTree(Bias::Northeast)));
    assert_eq!(decode("e"), Ok(Algorithm::EllersAlgorithm(Scan::Horizontal)));
    assert_eq!(decode("side"), Ok(Algorithm::SidewinderAlgorithm(Scan::Horizontal)));
}

#[test]
fn decode_refuses_a_wrong_format() {
    for text in ["", ",", "prims,", ",prims", "growing,,40", "a,b,c,d", "growing,newest,40,"].iter() {
        assert_eq!(decode(text), Err(DecodeError::IncorrectFormat));
    }
}

#[test]
fn decode_refuses_unknown_names() {
    assert_eq!(decode("zigzag"), Err(DecodeError::ExtractFail));
    assert_eq!(decode("binary,up"), Err(DecodeError::ExtractFail));
    assert_eq!(decode("ellers,north"), Err(DecodeError::ExtractFail));
    assert_eq!(decode("growing,newestoldest"), Err(DecodeError::ExtractFail));
    assert_eq!(decode("growing,oldestrandom,many"), Err(DecodeError::ExtractFail));
    assert_eq!(decode("primsalgorithms"), Err(DecodeError::ExtractFail));
}

#[test]
fn decode_refuses_what_is_no_pattern() {
    assert_eq!(decode("("), Err(DecodeError::BadPattern));
    assert_eq!(decode("prims,("), Err(DecodeError::BadPattern));
    assert_eq!(decode("[,x"), Err(DecodeError::BadPattern));
    // A bad third field is only no number.
    assert_eq!(decode("growing,newest,("), Ok(Algorithm::GrowingTree(CellSelection::Newest)));
}
