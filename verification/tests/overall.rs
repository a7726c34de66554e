use retrie::assemble::parse_file;

fn to_lines(xs: &[&str]) -> Vec<Vec<u8>> {
    xs.iter().map(|s| s.as_bytes().to_vec()).collect()
}

fn run(xs: &[&str]) -> String {
    let out = parse_file(to_lines(xs), true, false).unwrap();
    String::from_utf8(out).unwrap()
}

#[test]
fn overall_1() {
    assert_eq!(
        "A(aron|b(dullah|igail)|dam|hmed|l(an|bert|e(ssandro|x(ander|is))|i(ce)?|ma)|m(anda|ber|elia|y)|n(astasia|dre[aw]|gela|na?|t(hony|oni))|rthur|shley|u(rora|stin)|va)",
        run(&[
            "Aaron", "Abdullah", "Abigail", "Adam", "Ahmed", "Alan", "Albert", "Alessandro",
            "Alexander", "Alexis", "Ali", "Alice", "Alma", "Amanda", "Amber", "Amelia", "Amy",
            "Anastasia", "Andrea", "Andrew", "Angela", "Ann", "Anna", "Anthony", "Antoni",
            "Arthur", "Ashley", "Aurora", "Austin", "Ava",
        ])
    );
}

#[test]
fn overall_2() {
    assert_eq!(
        "S(a(m(antha|uel)|ndra|rah?)|cott|e(an|rgei)|h(aron|irley)|o(f(ia|[i\u{ed}]a)|phia)|te(ph(anie|en)|ven)|usan)",
        run(&[
            "Samantha", "Samuel", "Sandra", "Sara", "Sarah", "Scott", "Sean", "Sergei", "Sharon",
            "Shirley", "Sofia", "Sof\u{ed}a", "Sophia", "Stephanie", "Stephen", "Steven", "Susan",
        ])
    );
}

#[test]
fn overall_3() {
    assert_eq!(
        "M(a(dison|hmoud|r(garet|i(a|e|lyn)|k|t(ha|ina|[i\u{ed}]n)|y(am)?|[i\u{ed}]a)|son|t(eo|t(eo|hew))|xim)|e(gan|lissa)|i(ch(ael|elle)|khail)|ohamed|ustafa)",
        run(&[
            "Madison", "Mahmoud", "Margaret", "Maria", "Marie", "Marilyn", "Mark", "Martha",
            "Martina", "Mart\u{ed}n", "Mary", "Maryam", "Mar\u{ed}a", "Mason", "Mateo", "Matteo",
            "Matthew", "Maxim", "Megan", "Melissa", "Michael", "Michelle", "Mikhail", "Mohamed",
            "Mustafa",
        ])
    );
}

#[test]
fn overall_4() {
    assert_eq!(
        "L(eon(ardo)?|i(am|nda|sa)|o(gan|r(enzo|i)|uise?)|uc[i\u{ed}]a|yn|[e\u{e9}]o)",
        run(&[
            "Leon", "Leonardo", "Liam", "Linda", "Lisa", "Logan", "Lorenzo", "Lori", "Louis",
            "Louise", "Luc\u{ed}a", "Lyn", "L\u{e9}o",
        ])
    );
}

#[test]
fn overall_5() {
    assert_eq!(
        "E(mma|ric|than|ugene|velyn)|F(atima|ran(ces(co)?|k))|O(liv(er|ia)|mar)|P(a(mela|tric(ia|k)|ul)|eter)|W(ayne|illi(am|e))|Y(elena|ousouf)|Zachary",
        run(&[
            "Emma", "Eric", "Ethan", "Eugene", "Evelyn", "Fatima", "Frances", "Francesco",
            "Frank", "Oliver", "Olivia", "Omar", "Pamela", "Patricia", "Patrick", "Paul", "Peter",
            "Wayne", "William", "Willie", "Yelena", "Yousouf", "Zachary",
        ])
    );
}

#[test]
fn single_line_groups() {
    assert_eq!("abc|bcd|efg", run(&["abc", "bcd", "efg"]));
}

#[test]
fn excess_optionals() {
    assert_eq!(
        "a(bc(d(dd)?|e|fff)?|zzz)",
        run(&["abc", "abcd", "abcddd", "abce", "abcfff", "azzz"])
    );
}

#[test]
fn out_of_order() {
    assert_eq!(
        "E(mma|ric|than|ugene|velyn)|F(atima|ran(ces(co)?|k))|O(liv(er|ia)|mar)|P(a(mela|tric(ia|k)|ul)|eter)|W(ayne|illi(am|e))|Y(elena|ousouf)|Zachary",
        run(&[
            "Zachary", "Willie", "Yousouf", "Eric", "Peter", "Frank", "Omar", "Paul", "Wayne",
            "Emma", "Patricia", "Olivia", "Francesco", "Ethan", "Yelena", "Pamela", "Oliver",
            "Eugene", "William", "Evelyn", "Patrick", "Frances", "Fatima",
        ])
    );
}

#[test]
fn empty_lines() {
    assert_eq!("abc|cde|fgh", run(&["", "abc", "", "cde", "", "", "fgh", ""]));
}

#[test]
fn leading_trailing_whitespace() {
    assert_eq!(
        "a(bc|cd)|cde|fg[hy]",
        run(&["  abc", "acd   ", "  cde  ", "fgh", " fgy "])
    );
}

#[test]
fn non_unique_lines() {
    assert_eq!(
        "a(bc|cd)|cde|fg[hy]",
        run(&["abc", "abc", "acd", "cde", "fgy", "cde", "fgh", "fgy"])
    );
}

#[test]
fn diacritics() {
    assert_eq!(
        "ab(cd[e\u{e9}]|d[u\u{fc}])|bcd|cfg[i\u{ed}]",
        run(&["abcd\u{e9}", "abd\u{fc}", "bcd", "cfg\u{ed}"])
    );
}

#[test]
fn start_optional() {
    assert_eq!(
        "M(a(r(shall|tin(ez)?)|son)?|cdonald|e(dina|nd(ez|oza)|yer)|i(ll(er|s)|tchell))",
        run(&[
            "Ma", "Marshall", "Martin", "Martinez", "Mason", "Mcdonald", "Medina", "Mendez",
            "Mendoza", "Meyer", "Miller", "Mills", "Mitchell",
        ])
    );
}

#[test]
fn end_optional() {
    assert_eq!(
        "H(a(wkins|yes)|e(n(derson|ry)|r(nandez|rera))|i(cks|ll)|o(lmes|ward)|u(ang|ghes|nt(er)?))",
        run(&[
            "Hawkins", "Hayes", "Henderson", "Henry", "Hernandez", "Herrera", "Hicks", "Hill",
            "Holmes", "Howard", "Huang", "Hughes", "Hunt", "Hunter",
        ])
    );
}

#[test]
fn false_optional() {
    assert_eq!("Zh(a(ng|o)|ou)", run(&["Zhang", "Zhao", "Zhou"]));
}

#[test]
fn extended_optional() {
    assert_eq!(
        "M(a(dison|hmoud|r(garet|i(e|lyn)|k|shall|t(ha|in(a|ez)?|[i\u{ed}]n)|y(am)?|[i\u{ed}]a)|son|t(eo|t(eo|hew))|xim)?|cdonald|edina)",
        run(&[
            "Ma", "Madison", "Mahmoud", "Margaret", "Marie", "Marilyn", "Mark", "Marshall",
            "Martha", "Martin", "Martina", "Martinez", "Mart\u{ed}n", "Mary", "Maryam",
            "Mar\u{ed}a", "Mason", "Mateo", "Matteo", "Matthew", "Maxim", "Mcdonald", "Medina",
        ])
    );
}
