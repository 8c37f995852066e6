use amdl::cookies::{
    clean_netscape, diagnose, diagnosis_notes, env_cookies, expired, first_browser, is_settled, proceed, resolve,
    says_yes, store_notes, to_netscape, Ask, Browser, Cookie, Extracted, Level, Origin, OwnFile,
};

const HEADER: &str = "# Netscape HTTP Cookie File\n";

#[test]
fn a_cookie_file_is_cleaned() {
    let raw = "# comment\n\n.music.apple.com TRUE / TRUE 1900000000 geo  DK and more\n\
               #HttpOnly_.apple.com\tTRUE\t/\tTRUE\t1900000001\tmedia-user-token\tabc==\n\
               .example.com\tTRUE\t/\tTRUE\t1\tx\ty\n";
    let c = clean_netscape(raw);
    assert_eq!(c.count, 2);
    assert!(c.has_token);
    assert_eq!(
        c.text,
        format!("{HEADER}.music.apple.com\tTRUE\t/\tTRUE\t1900000000\tgeo\tDK and more\n.apple.com\tTRUE\t/\tTRUE\t1900000001\tmedia-user-token\tabc==\n")
    );
}

#[test]
fn a_header_is_cleaned() {
    let c = clean_netscape("geo=DK; Media-User-Token = a=b== ; bad name=x; empty=; # no=1\nitre=1");
    assert_eq!(c.count, 3);
    assert!(c.has_token);
    assert_eq!(
        c.text,
        format!("{HEADER}.apple.com\tTRUE\t/\tTRUE\t0\tgeo\tDK\n.apple.com\tTRUE\t/\tTRUE\t0\tMedia-User-Token\ta=b==\n.apple.com\tTRUE\t/\tTRUE\t0\titre\t1\n")
    );
    let nothing = clean_netscape("hello");
    assert_eq!((nothing.count, nothing.has_token, nothing.text.as_str()), (0, false, HEADER));
}

#[test]
fn cleaning_twice_changes_nothing() {
    let once = clean_netscape("a=1; b=2");
    let twice = clean_netscape(&once.text);
    assert_eq!(once.text, twice.text);
    assert_eq!(once.count, twice.count);
}

#[test]
fn cookies_expire_with_the_last_of_them() {
    let file = |e: &str| format!("{HEADER}.apple.com\tTRUE\t/\tTRUE\t{e}\tn\tv\n.apple.com\tTRUE\t/\tTRUE\t50\tm\tw\n");
    assert!(expired(Some(&file("100")), 101));
    assert!(!expired(Some(&file("100")), 100));
    assert!(!expired(Some(&file("200")), 101));
    assert!(!expired(Some("#\tx\n"), 101));
    assert!(!expired(Some(".apple.com\tTRUE\t/\tTRUE\t0\tn\tv\n"), 101));
    assert!(!expired(Some(".apple.com\tTRUE\t/\tTRUE\t-5\tn\tv\n"), 101));
    assert!(expired(None, 0));
}

fn cookie(domain: &str, expires: Option<u64>) -> Cookie {
    Cookie {
        domain: domain.to_string(),
        path: "/".to_string(),
        secure: true,
        expires,
        name: "n".to_string(),
        value: "v".to_string(),
    }
}

#[test]
fn browser_cookies_are_written_as_a_file() {
    let text = to_netscape(&[cookie(".apple.com", Some(7)), cookie("music.apple.com", None)]);
    assert_eq!(text, format!("{HEADER}.apple.com\tTRUE\t/\tTRUE\t7\tn\tv\nmusic.apple.com\tFALSE\t/\tTRUE\t0\tn\tv\n"));
    let b = |name: &str, c: Option<Vec<Cookie>>| Browser { name: name.to_string(), cookies: c };
    let all = vec![b("Chrome", None), b("Firefox", Some(vec![])), b("Brave", Some(vec![cookie("x", None)]))];
    assert_eq!(first_browser(&all), Some(2));
    assert_eq!(first_browser(&all[..2]), None);
}

#[test]
fn a_named_file_is_the_only_one_that_counts() {
    let a = resolve(Some("/tmp/cookies.txt"), false);
    assert_eq!(a, Ask::Named);
    assert_eq!(proceed(a, true), Ask::Use(Origin::Named));
    assert_eq!(proceed(a, false), Ask::Missing);
}

#[test]
fn the_search_goes_on_and_ends() {
    let mut a = resolve(None, false);
    let mut seen = vec![a];
    while !is_settled(a) {
        a = proceed(a, false);
        seen.push(a);
    }
    assert_eq!(a, Ask::GiveUp);
    assert_eq!(
        seen,
        vec![
            Ask::Environment,
            Ask::Default,
            Ask::Browser(0),
            Ask::Paste(0),
            Ask::Login(0),
            Ask::Browser(1),
            Ask::Paste(1),
            Ask::Login(1),
            Ask::Browser(2),
            Ask::Paste(2),
            Ask::GiveUp,
        ]
    );
    assert_eq!(resolve(Some("/tmp/cookies.txt"), true), Ask::Browser(0));
    assert_eq!(proceed(Ask::Environment, true), Ask::Use(Origin::Environment));
    assert_eq!(proceed(Ask::Default, true), Ask::Use(Origin::Default));
    assert_eq!(proceed(Ask::Browser(1), true), Ask::Use(Origin::Browser));
    assert_eq!(proceed(Ask::Paste(2), true), Ask::Use(Origin::Pasted));
}

#[test]
fn a_diagnosis_says_what_is_usable() {
    let own = Some(OwnFile { path: "/h/.gamdl/cookies.txt".to_string(), expired: true });
    let d = diagnose(None, &own, &None);
    assert!(!d.usable_cookies_available && !d.env_cookies_set);
    assert_eq!(d.gamdl_state.as_deref(), Some("expired"));
    let found = Some(Extracted { browser: "Firefox".into(), count: 3, path: "/c".into(), expired: false });
    let d = diagnose(Some(false), &own, &found);
    assert!(d.usable_cookies_available && d.env_cookies_set);
    assert_eq!(d.browser_state.as_deref(), Some("valid"));
    assert!(diagnose(Some(true), &None, &None).usable_cookies_available);

    let notes = diagnosis_notes(&own, &found, "Chrome");
    assert_eq!(notes[0].text, "gamdl cookies: /h/.gamdl/cookies.txt (looks EXPIRED)");
    assert_eq!(notes[1].text, "browser: 3 apple.com cookie(s) from Firefox → wrote /c");
    assert_eq!(diagnosis_notes(&None, &None, "Chrome").len(), 5);
}

#[test]
fn pasted_cookies_are_commented_on() {
    let c = clean_netscape("a=1");
    let notes = store_notes(&c, "/c/cookies.txt", true);
    assert_eq!(notes.len(), 3);
    assert_eq!(notes[2].level, Level::Good);
    assert_eq!(notes[2].text, "saved 1 apple.com cookie(s) → /c/cookies.txt");
    assert_eq!(store_notes(&clean_netscape("x"), "/c", false).len(), 1);
}

#[test]
fn answers_and_environment() {
    assert!(says_yes("Y") && says_yes("y") && !says_yes("yes") && !says_yes(""));
    assert_eq!(env_cookies(Some("  ".to_string())), None);
    assert_eq!(env_cookies(Some(" a".to_string())).as_deref(), Some(" a"));
    assert_eq!(env_cookies(None), None);
}

#[test]
fn cookies_are_read_from_standard_input() {
    let a = resolve(Some("-"), false);
    assert_eq!(a, Ask::Piped);
    let c = clean_netscape(".apple.com\tTRUE\t/\tTRUE\t0\tmedia-user-token\tabc\n");
    assert_eq!(proceed(a, c.count > 0), Ask::Use(Origin::Piped));
    assert!(c.has_token && c.text.ends_with("\tmedia-user-token\tabc\n"));
    assert_eq!(proceed(a, clean_netscape("nothing").count > 0), Ask::GiveUp);
    assert_eq!(resolve(Some("-"), true), Ask::Browser(0));
}

#[test]
fn cleaning_a_cleaned_text_changes_nothing() {
    for raw in ["", "no cookie here", "a=b; media-user-token=xyz==", "#HttpOnly_.music.apple.com TRUE / TRUE 1 Media-User-Token a b"] {
        let once = clean_netscape(raw);
        let twice = clean_netscape(&once.text);
        assert_eq!((&twice.text, twice.count, twice.has_token), (&once.text, once.count, once.has_token));
        assert_eq!(once.text.lines().count(), once.count + 1);
        assert!(once.text.lines().skip(1).all(|l| l.split('\t').count() == 7));
    }
}
