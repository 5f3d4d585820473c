use minigrep::{search, search_case_insensitive};

#[test]
fn one_result() {
    let query = "duct";
    let contents = "\
Rust:
safe, fast, productive.
Pick three.";

    assert_eq!(vec!["safe, fast, productive."], search(query, contents));
}

#[test]
fn two_results() {
    let query: &str = "Rust";
    let contents = "\
Rust:
safe, fast, productive.
Pick three.
Rust.";

    assert_eq!(vec!["Rust:", "Rust."], search(query, contents));
}

#[test]
fn no_results() {
    let query: &str = "Ruwst";
    let contents = "\
Rust:
safe, fast, productive.
Pick three.
Rust.";

    assert!(search(query, contents).is_empty());
}

#[test]
fn case_insensitive() {
    let query: &str = "rUsT";
    let contents = "\
Rust:
safe, fast, productive.
Pick three.
Trust me.";

    assert_eq!(
        vec!["Rust:", "Trust me."],
        search_case_insensitive(query, contents)
    );
}

#[test]
fn search_is_case_sensitive() {
    let contents = "Rust:\nsafe, fast, productive.\nPick three.\nTrust me.";
    assert_eq!(vec!["Rust:"], search("Rust", contents));
    assert!(search("rUsT", contents).is_empty());
}

#[test]
fn every_found_line_holds_the_query() {
    let contents = "alpha beta\ngamma\nbeta\n\nalphabet\nBETA";
    let found = search("beta", contents);
    assert_eq!(vec!["alpha beta", "beta"], found);
    for line in &found {
        assert!(line.contains("beta"));
    }
    let all: Vec<&str> = contents.lines().collect();
    for line in all {
        assert_eq!(line.contains("beta"), found.contains(&line));
    }
}

#[test]
fn empty_query_finds_every_line() {
    let contents = "first\r\n\nthird line\r\nfourth\n";
    assert_eq!(vec!["first", "", "third line", "fourth"], search("", contents));
    assert_eq!(
        vec!["first", "", "third line", "fourth"],
        search_case_insensitive("", contents)
    );
}

#[test]
fn empty_contents_have_no_lines() {
    assert!(search("", "").is_empty());
    assert!(search("a", "").is_empty());
    assert!(search_case_insensitive("", "").is_empty());
}

#[test]
fn equal_lines_are_each_found() {
    let contents = "echo\nother\necho\necho";
    assert_eq!(vec!["echo", "echo", "echo"], search("ch", contents));
}

#[test]
fn found_lines_keep_the_order_of_the_contents() {
    let contents = "zz 3\naa 1\nmm 2\nnone\naa 0";
    assert_eq!(vec!["zz 3", "aa 1", "mm 2", "aa 0"], search(" ", contents));
}

#[test]
fn query_across_a_line_break_is_not_found() {
    assert!(search("a\nb", "a\nb").is_empty());
    assert!(search("ab", "a\nb").is_empty());
    assert!(search("\n", "a\nb\n").is_empty());
}

#[test]
fn carriage_return_before_line_feed_is_no_part_of_the_line() {
    assert!(search("\r", "one\r\ntwo\r\n").is_empty());
    assert_eq!(vec!["one\rtwo"], search("\r", "one\rtwo\r\nthree"));
    assert_eq!(vec!["end\r"], search("\r", "start\nend\r"));
}

#[test]
fn search_handles_characters_of_several_bytes() {
    let contents = "na\u{ef}ve caf\u{e9}\n\u{65e5}\u{672c}\u{8a9e} text\nplain";
    assert_eq!(vec!["na\u{ef}ve caf\u{e9}"], search("\u{e9}", contents));
    assert_eq!(vec!["\u{65e5}\u{672c}\u{8a9e} text"], search("\u{672c}\u{8a9e}", contents));
    assert!(search("\u{e8}", contents).is_empty());
    assert_eq!(
        vec!["na\u{ef}ve caf\u{e9}", "\u{65e5}\u{672c}\u{8a9e} text"],
        search("e", contents)
    );
}

#[test]
fn case_insensitive_search_returns_lines_as_written() {
    let contents = "MiXeD Case Line\nlower line\nUPPER LINE\nnothing";
    assert_eq!(
        vec!["MiXeD Case Line", "lower line", "UPPER LINE"],
        search_case_insensitive("LiNe", contents)
    );
}

#[test]
fn case_insensitive_search_lowers_the_query() {
    assert_eq!(vec!["abc"], search_case_insensitive("ABC", "abc\nxyz"));
    assert!(search("ABC", "abc\nxyz").is_empty());
}

#[test]
fn case_insensitive_search_lowers_each_line() {
    assert_eq!(vec!["ABC"], search_case_insensitive("abc", "ABC\nxyz"));
    assert!(search("abc", "ABC\nxyz").is_empty());
}

#[test]
fn case_insensitive_search_knows_letters_beyond_ascii() {
    let contents = "\u{c4}RGER\n\u{e4}rger\nArger";
    assert_eq!(
        vec!["\u{c4}RGER", "\u{e4}rger"],
        search_case_insensitive("\u{c4}r", contents)
    );
}

#[test]
fn case_insensitive_search_finds_no_less_on_plain_text() {
    let contents = "Rust:\nsafe, fast, productive.\nPick three.\nTrust me.\nrust\nRUST";
    for query in ["Rust", "rust", "t", "T", "", "three", "absent"] {
        let exact = search(query, contents);
        let loose = search_case_insensitive(query, contents);
        assert!(exact.len() <= loose.len());
        for line in exact {
            assert!(loose.contains(&line));
        }
        for line in &loose {
            assert!(line.to_lowercase().contains(&query.to_lowercase()));
        }
    }
}

#[test]
fn lower_case_of_a_final_sigma_depends_on_what_follows() {
    let query = "\u{391}\u{3a3}";
    let contents = "\u{391}\u{3a3}\u{391}";
    assert_eq!(vec![contents], search(query, contents));
    assert!(search_case_insensitive(query, contents).is_empty());
}

#[test]
fn searches_can_be_repeated() {
    let contents = "one\ntwo\nthree";
    assert_eq!(search("o", contents), search("o", contents));
    assert_eq!(vec!["one", "two"], search("o", contents));
    assert_eq!(vec!["three"], search("th", contents));
    assert_eq!(vec!["one", "two"], search("o", contents));
}
