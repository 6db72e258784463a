use baca::model::{InstanceData, ParseError, Points, Results, Submit, SubmitStatus};
use baca::parse::{unquoted, HEADER_LEN, PREFIX_LEN, RECORD_WIDTH, SUFFIX_LEN};
use baca::text::{is_digits, parse_u64};

fn instance() -> InstanceData {
    InstanceData {
        host: "mn".to_string(),
        login: "".to_string(),
        password: "".to_string(),
        permutation: "permutation".to_string(),
        cookie: "cookie".to_string(),
    }
}

fn points_value(p: &Points) -> f64 {
    p.whole as f64 + p.fraction as f64 / 10f64.powi(p.scale as i32)
}

/// Wraps a payload in a status prefix and trailing flags of the fixed lengths.
fn wrap(payload: &str) -> String {
    format!("//OK[{}],0,1,7]", payload)
}

/// A payload whose references name each pool literal once, in order.
fn payload_of(literals: &[&str]) -> String {
    let refs: Vec<String> = (1..=literals.len()).map(|i| i.to_string()).collect();
    let pool: Vec<String> = literals.iter().map(|l| format!("\"{}\"", l)).collect();
    format!("{},{}", refs.join(","), pool.join(","))
}

const MARKER: &str = "[Ljava.lang.String;/2600011424";

fn header() -> Vec<&'static str> {
    vec![MARKER, "nazwa statusu", "punkty", "zaliczone (%)", "rozmiar (b)", "czas", "jezyk", "zadanie", "id", "x"]
}

fn group(status: &'static str, points: &'static str, id: &'static str) -> Vec<&'static str> {
    vec![MARKER, status, points, "100", "1190", "2020-05-17 18:53:09", "C++", "[G] Funkcje", id, "7"]
}

#[test]
fn parse_test() {
    let baca = instance();
    let raw = RAW;

    let actual = Results::parse(&baca, raw).unwrap();
    let last = &actual.submits[0];

    let expected = Submit {
        status: SubmitStatus::Accepted,
        points: Points { whole: 4, fraction: 0, scale: 2 },
        lateness: None,
        accepted: 100,
        size: 1190,
        timestamp: "2020-05-17 18:53:09".to_string(),
        language: "C++".to_string(),
        id: "4334".to_string(),
        max_points: None,
        problem_name: "[G] Funkcje sklejane".to_string(),
        link: "https://baca.ii.uj.edu.pl/mn/#SubmitDetails/4334".to_string(),
    };

    assert_eq!(points_value(&last.points), 4.0);
    assert_eq!(*last, expected);
}

#[test]
fn sample_yields_all_groups_but_the_padding() {
    let actual = Results::parse(&instance(), RAW).unwrap();
    assert_eq!(actual.submits.len(), 53);
    assert_eq!(actual.submits[1].id, "4328");
    assert_eq!(actual.submits[2].status, SubmitStatus::CompileError);
    assert_eq!(actual.submits[2].points, Points { whole: 0, fraction: 0, scale: 2 });
}

#[test]
fn parsing_twice_gives_equal_records() {
    let a = Results::parse(&instance(), RAW);
    let b = Results::parse(&instance(), RAW);
    assert_eq!(a, b);
}

#[test]
fn resolved_sequence_skips_zero_references() {
    let raw = wrap("2,0,1,0,2,\"a\",\"b\"");
    let resolved = Results::deserialize(&raw).unwrap();
    assert_eq!(resolved, vec!["b".to_string(), "a".to_string(), "b".to_string()]);
    assert!(!resolved.iter().any(|s| s == "0"));
}

#[test]
fn resolved_sequence_counts_nonzero_references() {
    let raw = wrap("0,0,3,1,0,\"x\",\"y\",\"z\"");
    let resolved = Results::deserialize(&raw).unwrap();
    assert_eq!(resolved.len(), 2);
    assert_eq!(resolved, vec!["z".to_string(), "x".to_string()]);
}

#[test]
fn quoted_literal_loses_one_pair_of_quotes() {
    assert_eq!(unquoted("\"abc\""), "abc");
    assert_eq!(unquoted("\"\"abc\"\""), "\"abc\"");
    assert_eq!(unquoted("plain"), "plain");
    assert_eq!(unquoted("\""), "");
    let raw = wrap("1,\"say \"hi\"\"");
    assert_eq!(Results::deserialize(&raw).unwrap(), vec!["say \"hi\"".to_string()]);
}

#[test]
fn empty_reference_run_gives_no_marker() {
    let raw = wrap("\"a\",\"b\"");
    assert_eq!(Results::deserialize(&raw).unwrap(), Vec::<String>::new());
    assert_eq!(Results::parse(&instance(), &raw), Err(ParseError::SentinelNotFound));
}

#[test]
fn short_tail_group_is_dropped() {
    let mut lits = header();
    lits.extend(group("program zaakceptowany", "4.00", "11"));
    lits.extend(vec!["p", "q", "r"]);
    let res = Results::parse(&instance(), &wrap(&payload_of(&lits))).unwrap();
    assert_eq!(res.submits.len(), 1);
    assert_eq!(res.submits[0].id, "11");
}

#[test]
fn full_last_group_is_dropped_as_padding() {
    let mut lits = header();
    lits.extend(group("program zaakceptowany", "4.00", "11"));
    lits.extend(group("przekroczony czas", "0.5", "12"));
    let res = Results::parse(&instance(), &wrap(&payload_of(&lits))).unwrap();
    assert_eq!(res.submits.len(), 1);
    assert_eq!(res.submits[0].id, "11");
}

#[test]
fn records_come_last_group_first() {
    let mut lits = header();
    lits.extend(group("program zaakceptowany", "4.00", "11"));
    lits.extend(group("przekroczony czas", "0.5", "12"));
    lits.extend(vec!["tail"]);
    let res = Results::parse(&instance(), &wrap(&payload_of(&lits))).unwrap();
    assert_eq!(res.submits.len(), 2);
    assert_eq!(res.submits[0].id, "12");
    assert_eq!(res.submits[0].status, SubmitStatus::TimeExceeded);
    assert_eq!(res.submits[0].points, Points { whole: 0, fraction: 5, scale: 1 });
    assert_eq!(res.submits[1].id, "11");
}

#[test]
fn only_header_gives_no_records() {
    let lits = header();
    let res = Results::parse(&instance(), &wrap(&payload_of(&lits))).unwrap();
    assert!(res.submits.is_empty());
}

#[test]
fn non_numeric_id_passes_through() {
    let mut lits = header();
    lits.extend(group("program zaakceptowany", "4.00", "abc-17"));
    lits.extend(vec!["tail"]);
    let res = Results::parse(&instance(), &wrap(&payload_of(&lits))).unwrap();
    assert_eq!(res.submits[0].id, "abc-17");
    assert_eq!(res.submits[0].link, "https://baca.ii.uj.edu.pl/mn/#SubmitDetails/abc-17");
}

#[test]
fn short_input_is_malformed() {
    assert_eq!(Results::parse(&instance(), "//OK[],0,7]"), Err(ParseError::MalformedEnvelope));
    assert_eq!(Results::remove_outer_layer("abcdefghijkl"), Err(ParseError::MalformedEnvelope));
    assert_eq!(Results::remove_outer_layer("//OK[],0,1,7]"), Ok("".to_string()));
    assert_eq!(PREFIX_LEN + SUFFIX_LEN, 13);
}

#[test]
fn empty_reference_token_is_invalid() {
    assert_eq!(Results::deserialize(&wrap("1,,\"a\"")), Err(ParseError::InvalidReference));
    assert_eq!(Results::parse(&instance(), &wrap("")), Err(ParseError::InvalidReference));
    assert_eq!(
        Results::deserialize(&wrap("99999999999999999999999,\"a\"")),
        Err(ParseError::InvalidReference)
    );
}

#[test]
fn reference_past_pool_is_out_of_range() {
    assert_eq!(Results::deserialize(&wrap("1,3,\"a\",\"b\"")), Err(ParseError::IndexOutOfRange));
}

#[test]
fn unknown_status_is_an_error() {
    let mut lits = header();
    lits.extend(group("status nieznany", "4.00", "11"));
    lits.extend(vec!["tail"]);
    assert_eq!(Results::parse(&instance(), &wrap(&payload_of(&lits))), Err(ParseError::UnknownStatus));
}

#[test]
fn bad_points_are_an_error() {
    for bad in ["", "4.", ".5", "x", "1.2.3", "-1"] {
        let mut lits = header();
        lits.extend(group("program zaakceptowany", bad, "11"));
        lits.extend(vec!["tail"]);
        let raw = wrap(&payload_of(&lits));
        assert_eq!(Results::parse(&instance(), &raw), Err(ParseError::InvalidNumber), "{}", bad);
    }
}

#[test]
fn split_keeps_empty_tokens() {
    assert_eq!(Results::split_raw("a,,b,"), vec!["a", "", "b", ""]);
    assert_eq!(Results::split_raw(""), vec![""]);
}

#[test]
fn keys_and_values_split_at_first_non_numeric() {
    let toks: Vec<String> = ["3", "0", "x", "7"].iter().map(|s| s.to_string()).collect();
    let keys = Results::get_keys(&toks);
    assert_eq!(keys, vec!["3", "0"]);
    assert_eq!(Results::get_values(&toks, keys.len()), vec!["x", "7"]);
}

#[test]
fn numbers_and_decimals() {
    assert_eq!(parse_u64("1190"), Some(1190));
    assert_eq!(parse_u64("18446744073709551615"), Some(u64::MAX));
    assert_eq!(parse_u64("18446744073709551616"), None);
    assert_eq!(parse_u64("+5"), None);
    assert!(is_digits("0123"));
    assert!(!is_digits("12a"));
    assert_eq!(Points::from_text("2.95"), Some(Points { whole: 2, fraction: 95, scale: 2 }));
    assert_eq!(Points::from_text("7"), Some(Points { whole: 7, fraction: 0, scale: 0 }));
    assert_eq!(points_value(&Points::from_text("0.67").unwrap()), 0.67);
}

#[test]
fn statuses_as_written_on_the_wire() {
    assert_eq!(SubmitStatus::from_text("program zaakceptowany"), Some(SubmitStatus::Accepted));
    assert_eq!(SubmitStatus::from_text("b\u{139}\\x82\u{c4}\\x85d kompilacji"), Some(SubmitStatus::CompileError));
    assert_eq!(SubmitStatus::from_text("z\u{139}\\x82a odpowiedz"), Some(SubmitStatus::WrongAnswer));
    assert_eq!(SubmitStatus::from_text("przekroczony czas"), Some(SubmitStatus::TimeExceeded));
    assert_eq!(SubmitStatus::from_text("b\u{139}\\x82\u{c4}\\x85d wykonania"), Some(SubmitStatus::RuntimeError));
    assert_eq!(SubmitStatus::from_text("OK"), None);
}

#[test]
fn url_of_instance() {
    assert_eq!(instance().make_url(), "https://baca.ii.uj.edu.pl/mn");
    assert_eq!(HEADER_LEN, 10);
    assert_eq!(RECORD_WIDTH, 10);
}

const RAW: &str = r#"//OK[207,206,205,205,207,205,206,209,209,209,208,208,206,208,206,208,208,208,208,208,207,207,207,207,206,208,208,208,208,208,208,208,208,208,208,205,208,208,208,207,209,209,208,207,205,206,206,205,205,206,206,205,205,53,3,204,203,202,201,200,199,198,197,8,3,42,196,195,194,193,6,186,192,8,3,20,19,18,191,190,6,186,189,8,3,11,10,9,188,187,6,186,185,8,3,11,10,9,184,183,6,182,181,8,3,42,180,179,178,177,6,173,176,8,3,11,10,9,175,174,6,173,172,8,3,20,19,18,171,170,6,60,169,8,3,52,112,111,168,167,6,60,166,8,3,52,112,111,165,164,6,60,163,8,3,52,112,111,162,161,6,60,160,8,3,48,93,92,159,158,6,60,157,8,3,48,93,92,156,155,6,60,154,8,3,20,19,18,153,152,6,60,151,8,3,48,144,143,150,149,6,60,148,8,3,20,19,18,147,146,6,60,145,8,3,48,144,143,142,141,6,60,140,8,3,48,129,128,139,138,6,60,137,8,3,48,134,133,132,136,6,60,135,8,3,48,134,133,132,131,6,60,130,8,3,48,129,128,127,126,6,60,125,8,3,42,122,121,24,124,6,60,123,8,3,42,122,121,120,119,6,60,118,8,3,42,117,116,115,114,6,60,113,8,3,42,112,111,110,109,6,60,108,8,3,20,19,18,107,106,6,60,105,8,3,48,64,63,104,103,6,60,102,8,3,48,64,63,96,101,6,60,100,8,3,48,64,63,99,98,6,60,97,8,3,48,64,63,96,95,6,60,94,8,3,48,93,92,91,90,6,60,89,8,3,48,64,63,88,87,6,60,86,8,3,48,64,63,85,84,6,60,83,8,3,48,64,63,82,81,6,60,80,8,3,48,64,63,79,78,6,60,77,8,3,48,64,63,76,75,6,60,74,8,3,11,10,9,73,72,6,60,71,8,3,48,64,63,70,69,6,60,68,8,3,48,64,63,67,66,6,60,65,8,3,48,64,63,62,61,6,60,59,8,3,42,19,18,58,57,6,37,56,8,3,52,47,46,55,54,6,37,53,8,3,52,47,46,51,50,6,37,49,8,3,48,47,46,45,44,6,37,43,8,3,42,19,18,39,41,6,37,40,8,3,11,10,9,39,38,6,37,36,8,3,20,19,18,35,34,6,25,33,8,3,20,19,18,27,32,6,25,31,8,3,11,10,9,30,29,6,25,28,8,3,11,10,9,27,26,6,25,24,8,3,20,19,18,23,22,6,5,21,8,3,20,19,18,17,16,6,5,15,8,3,11,10,9,14,13,6,5,12,8,3,11,10,9,8,7,6,5,4,8,3,53,2,1,["testerka.gwt.client.tools.DataSource/1474249525","[[Ljava.lang.String;/4182515373","[Ljava.lang.String;/2600011424","4334","[G] Funkcje sklejane","C++","2020-05-17 18:53:09","1190","100","4.00","program zaakceptowany","4328","2020-05-17 16:57:22","2022","4326","2020-05-17 16:53:41","2010","0","0.00","bĹ\x82Ä\x85d kompilacji","4325","2020-05-17 16:52:45","1226","4147","[F] Interpolacja","2020-05-15 11:11:42","4381","4073","2020-05-14 13:45:22","4880","4070","2020-05-14 13:11:52","4069","2020-05-14 13:09:50","1976","3269","[E] Metoda SOR","2020-04-26 13:27:14","2004","3268","2020-04-26 13:24:45","zĹ\x82a odpowiedz","3266","2020-04-26 12:43:36","1970","17","0.67","przekroczony czas","3113","2020-04-24 20:06:32","1612","bĹ\x82Ä\x85d wykonania","3111","2020-04-24 19:41:07","1595","2919","2020-04-23 12:23:38","75","2918","[D] Skalowany Gauss","2020-04-23 12:04:20","4327","89","3.58","2917","2020-04-23 12:01:03","4281","2908","2020-04-22 20:51:41","5816","2907","2020-04-22 20:41:43","7244","2905","2020-04-22 19:22:21","5718","2904","2020-04-22 19:20:07","5709","2903","2020-04-22 18:43:42","5212","2897","2020-04-22 16:14:55","5096","2896","2020-04-22 16:13:45","5100","2895","2020-04-22 16:07:00","5116","26","1.05","2894","2020-04-22 15:46:59","5048","2888","2020-04-22 13:04:36","5752","2886","2020-04-22 12:36:04","2885","2020-04-22 12:31:25","5032","2884","2020-04-22 12:30:53","5010","2796","2020-04-20 15:39:42","4358","74","2.95","2795","2020-04-20 15:36:05","4483","63","2.53","2534","2020-04-17 11:24:47","3946","16","0.63","2533","2020-04-17 10:42:33","2532","2020-04-17 10:37:46","4191","42","1.68","2531","2020-04-17 10:03:54","4101","37","1.47","2501","2020-04-16 21:47:55","2500","2020-04-16 21:45:00","4071","2495","2020-04-16 20:41:45","4068","32","1.26","2494","2020-04-16 20:34:12","3980","2493","2020-04-16 20:18:00","3995","2492","2020-04-16 20:17:28","3984","2490","2020-04-16 19:44:56","4024","2487","2020-04-16 18:12:59","4018","2471","2020-04-16 17:13:03","6278","2458","2020-04-16 16:06:32","6340","2454","2020-04-16 15:22:25","5211","2453","2020-04-16 15:20:10","5213","1721","[C] FAD\x3Csup\x3E2\x3C/sup\x3E - Pochodne mieszane","2020-04-04 00:25:12","6251","1720","2020-04-04 00:12:59","6277","57","2.29","532","[B] Metoda Newtona","2020-03-22 22:43:32","7431","189","[A] Zera funkcji","2020-03-20 01:42:03","1993","188","2020-03-20 01:41:32","1975","160","2020-03-19 21:21:25","2112","25","1.00","id","zadanie","język","czas zgłoszenia","rozmiar (b)","zaliczone (%)","punkty","nazwa statusu","status_OK","status_CMP","status_ANS","status_TLE","status_RTE"],0,7]"#;
