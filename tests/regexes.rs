use wcount::args::WordRegex;
use wcount::regexes::find_words;

#[test]
fn all1() {
    let rres = find_words(WordRegex::All, "lorem ipsum dolor");

    assert_eq!(rres, vec!["lorem", "ipsum", "dolor"]);
}

#[test]
fn all2() {
    let rres = find_words(WordRegex::All, "lor.em ips!um 'dolor");

    assert_eq!(rres, vec!["lor", "em", "ips", "um", "dolor"]);
}

#[test]
fn all3() {
    let rres = find_words(WordRegex::All, "lorem ipsum dol_3or");

    assert_eq!(rres, vec!["lorem", "ipsum", "dol", "3or"]);
}

#[test]
fn all4() {
    let rres = find_words(WordRegex::All, "123  1,23 1_2 2d3");

    assert_eq!(rres, vec!["123", "1", "23", "1", "2", "2d3"]);
}

#[test]
fn all5() {
    let rres = find_words(WordRegex::All, "ömür ğğğ 式 2d3");

    assert_eq!(rres, vec!["ömür", "ğğğ", "式", "2d3"]);
}

#[test]
fn alphanumeric1() {
    let rres = find_words(WordRegex::OnlyAlphanumeric, "lorem ipsum dolor");

    assert_eq!(rres, vec!["lorem", "ipsum", "dolor"]);
}

#[test]
fn alphanumeric2() {
    let rres = find_words(WordRegex::OnlyAlphanumeric, "lor.em ips!um 'dolor");

    assert_eq!(rres, vec!["lor", "em", "ips", "um", "dolor"]);
}

#[test]
fn alphanumeric3() {
    let rres = find_words(WordRegex::OnlyAlphanumeric, "lorem ipsum dol_3or");

    assert_eq!(rres, vec!["lorem", "ipsum", "dol", "3or"]);
}

#[test]
fn alphanumeric4() {
    let rres = find_words(WordRegex::OnlyAlphanumeric, "123  1,23 1_2 2d3");

    assert_eq!(rres, vec!["123", "1", "23", "1", "2", "2d3"]);
}

#[test]
fn alphanumeric5() {
    let rres = find_words(WordRegex::OnlyAlphanumeric, "ömür ğğğ 式 2d3");

    assert_eq!(rres, vec!["ömür", "ğğğ", "式", "2d3"]);
}

#[test]
fn alphanumeric6() {
    let rres = find_words(WordRegex::OnlyAlphanumeric, "lorem ip-sum dol3'or");

    assert_eq!(rres, vec!["lorem", "ip", "sum", "dol3", "or"]);
}

#[test]
fn alpha1() {
    let rres = find_words(WordRegex::OnlyAlphabetic, "lorem ipsum dolor");

    assert_eq!(rres, vec!["lorem", "ipsum", "dolor"]);
}

#[test]
fn alpha2() {
    let rres = find_words(WordRegex::OnlyAlphabetic, "lor.em ips!um 'dolor");

    assert_eq!(rres, vec!["lor", "em", "ips", "um", "dolor"]);
}

#[test]
fn alpha3() {
    let rres = find_words(WordRegex::OnlyAlphabetic, "lorem ipsum dol_3or");

    assert_eq!(rres, vec!["lorem", "ipsum", "dol", "or"]);
}

#[test]
fn alpha4() {
    let rres = find_words(WordRegex::OnlyAlphabetic, "123  1,23 1_2 2d3");

    assert_eq!(rres, vec!["d"]);
}

#[test]
fn alpha5() {
    let rres = find_words(WordRegex::OnlyAlphabetic, "ömür ğğğ 式 2d3");

    assert_eq!(rres, vec!["ömür", "ğğğ", "式", "d"]);
}

#[test]
fn alpha6() {
    let rres = find_words(WordRegex::OnlyAlphabetic, "lorem ip-sum dol3'or");

    assert_eq!(rres, vec!["lorem", "ip", "sum", "dol", "or"]);
}

#[test]
fn numeric1() {
    let rres = find_words(WordRegex::OnlyNumeric, "lorem ipsum dolor");

    assert_eq!(rres, Vec::<&str>::new());
}

#[test]
fn numeric2() {
    let rres = find_words(WordRegex::OnlyNumeric, "lor.em ips!um 'dolor");

    assert_eq!(rres, Vec::<&str>::new());
}

#[test]
fn numeric3() {
    let rres = find_words(WordRegex::OnlyNumeric, "lorem ipsum dol_3or");

    assert_eq!(rres, vec!["3"]);
}

#[test]
fn numeric4() {
    let rres = find_words(WordRegex::OnlyNumeric, "123  1,23 1_2 2d3");

    assert_eq!(rres, vec!["123", "1", "23", "1", "2", "2", "3"]);
}

#[test]
fn numeric5() {
    let rres = find_words(WordRegex::OnlyNumeric, "ömür ğğğ 式 2d3");

    assert_eq!(rres, vec!["2", "3"]);
}

#[test]
fn numeric6() {
    let rres = find_words(WordRegex::OnlyNumeric, "lorem ip-sum dol3'or");

    assert_eq!(rres, vec!["3"]);
}

#[test]
fn no_dash1() {
    let rres = find_words(WordRegex::NoDash, "lorem ipsum dolor");

    assert_eq!(rres, vec!["lorem", "ipsum", "dolor"]);
}

#[test]
fn no_dash2() {
    let rres = find_words(WordRegex::NoDash, "lor.em ips!um 'dolor");

    assert_eq!(rres, vec!["lor", "em", "ips", "um", "dolor"]);
}

#[test]
fn no_dash3() {
    let rres = find_words(WordRegex::NoDash, "lorem ipsum dol_3or");

    assert_eq!(rres, vec!["lorem", "ipsum", "dol", "3or"]);
}

#[test]
fn no_dash4() {
    let rres = find_words(WordRegex::NoDash, "123  1,23 1_2 2d3");

    assert_eq!(rres, vec!["123", "1", "23", "1", "2", "2d3"]);
}

#[test]
fn no_dash5() {
    let rres = find_words(WordRegex::NoDash, "ömür ğğğ 式 2d3");

    assert_eq!(rres, vec!["ömür", "ğğğ", "式", "2d3"]);
}

#[test]
fn no_dash6() {
    let rres = find_words(WordRegex::NoDash, "lorem ip-sum dol3'or");

    assert_eq!(rres, vec!["lorem", "ip", "sum", "dol3'or"]);
}

#[test]
fn no_apostrophe1() {
    let rres = find_words(WordRegex::NoApostrophe, "lorem ipsum dolor");

    assert_eq!(rres, vec!["lorem", "ipsum", "dolor"]);
}

#[test]
fn no_apostrophe2() {
    let rres = find_words(WordRegex::NoApostrophe, "lor.em ips!um 'dolor");

    assert_eq!(rres, vec!["lor", "em", "ips", "um", "dolor"]);
}

#[test]
fn no_apostrophe3() {
    let rres = find_words(WordRegex::NoApostrophe, "lorem ipsum dol_3or");

    assert_eq!(rres, vec!["lorem", "ipsum", "dol", "3or"]);
}

#[test]
fn no_apostrophe4() {
    let rres = find_words(WordRegex::NoApostrophe, "123  1,23 1_2 2d3");

    assert_eq!(rres, vec!["123", "1", "23", "1", "2", "2d3"]);
}

#[test]
fn no_apostrophe5() {
    let rres = find_words(WordRegex::NoApostrophe, "ömür ğğğ 式 2d3");

    assert_eq!(rres, vec!["ömür", "ğğğ", "式", "2d3"]);
}

#[test]
fn no_apostrophe6() {
    let rres = find_words(WordRegex::NoApostrophe, "lorem ip-sum dol3'or");

    assert_eq!(rres, vec!["lorem", "ip-sum", "dol3", "or"]);
}
