use market_data_order_book::config::{
    classify_ini_line, ini_value, parse_ini_lines, read_bool, settings_from_entries, read_i32, read_list, read_u16, read_u32, IniLine,
};

fn entries(text: &[&str]) -> Vec<(String, String)> {
    let lines: Vec<&str> = text.to_vec();
    parse_ini_lines(&lines)
}

#[test]
fn ini_lines_are_classified_after_trimming() {
    assert!(matches!(classify_ini_line("   "), IniLine::Skip));
    assert!(matches!(classify_ini_line("# comment"), IniLine::Skip));
    assert!(matches!(classify_ini_line("  ; comment"), IniLine::Skip));
    assert!(matches!(classify_ini_line("no equals sign"), IniLine::Skip));
    match classify_ini_line(" [ Data ] ") {
        IniLine::Section(s) => assert_eq!(s, "Data"),
        _ => panic!("section not read"),
    }
    match classify_ini_line(" Port = 1234 = x ") {
        IniLine::Entry(k, v) => {
            assert_eq!(k, "Port");
            assert_eq!(v, "1234 = x");
        }
        _ => panic!("entry not read"),
    }
    match classify_ini_line("[]") {
        IniLine::Section(s) => assert_eq!(s, ""),
        _ => panic!("empty section not read"),
    }
}

#[test]
fn entries_carry_lowercased_section_and_key() {
    let e = entries(&[
        "exchange_name = MyExchange",
        "[Consumer]",
        "IP = 10.0.0.1",
        "port=4000",
        "# skipped",
        "[data]",
        "market_data_files = a.txt, b.txt",
    ]);
    let want = vec![
        ("exchange_name".to_string(), "MyExchange".to_string()),
        ("consumer.ip".to_string(), "10.0.0.1".to_string()),
        ("consumer.port".to_string(), "4000".to_string()),
        ("data.market_data_files".to_string(), "a.txt, b.txt".to_string()),
    ];
    assert_eq!(e, want);
}

#[test]
fn repeated_keys_are_all_listed_in_order() {
    let e = entries(&["[perf]", "enabled = false", "[perf]", "enabled = true"]);
    assert_eq!(e.len(), 2);
    assert_eq!(e[1], ("perf.enabled".to_string(), "true".to_string()));
}

#[test]
fn booleans_read_true_one_and_yes() {
    assert!(read_bool("true"));
    assert!(read_bool("TRUE"));
    assert!(read_bool("Yes"));
    assert!(read_bool("1"));
    assert!(!read_bool("0"));
    assert!(!read_bool("on"));
    assert!(!read_bool(" true"));
}

#[test]
fn unsigned_values_respect_their_width() {
    assert_eq!(read_u16("1234"), Some(1234));
    assert_eq!(read_u16("65535"), Some(65535));
    assert_eq!(read_u16("65536"), None);
    assert_eq!(read_u16("-1"), None);
    assert_eq!(read_u32("4294967295"), Some(u32::MAX));
    assert_eq!(read_u32("4294967296"), None);
    assert_eq!(read_u32("+7"), Some(7));
}

#[test]
fn signed_values_read_both_signs() {
    assert_eq!(read_i32("-1"), Some(-1));
    assert_eq!(read_i32("0"), Some(0));
    assert_eq!(read_i32("-0"), Some(0));
    assert_eq!(read_i32("+12"), Some(12));
    assert_eq!(read_i32("2147483647"), Some(i32::MAX));
    assert_eq!(read_i32("-2147483648"), Some(i32::MIN));
    assert_eq!(read_i32("2147483648"), None);
    assert_eq!(read_i32("-2147483649"), None);
    assert_eq!(read_i32("-"), None);
    assert_eq!(read_i32("-+1"), None);
    assert_eq!(read_i32("x"), None);
}

#[test]
fn lists_drop_empty_items() {
    assert_eq!(read_list(" a.txt , b.txt,,c "), vec!["a.txt", "b.txt", "c"]);
    assert_eq!(read_list(""), Vec::<String>::new());
    assert_eq!(read_list(" , "), Vec::<String>::new());
    assert_eq!(read_list("one"), vec!["one"]);
}

#[test]
fn the_later_of_repeated_keys_wins() {
    let e = entries(&["[perf]", "enabled = false", "outfile = a.csv", "[perf]", "enabled = true"]);
    assert_eq!(ini_value(&e, "perf.enabled"), Some("true"));
    assert_eq!(ini_value(&e, "perf.outfile"), Some("a.csv"));
    assert_eq!(ini_value(&e, "perf.missing"), None);
}

#[test]
fn settings_take_the_last_entry_or_the_default() {
    let e = entries(&[
        "exchange_name = Local",
        "[data]",
        "market_data_files = a.txt, b.txt",
        "n = 250",
        "[consumer]",
        "port = 70000",
        "core = -3",
        "[producer]",
        "rate = 500",
        "[perf]",
        "enabled = yes",
        "[producer]",
        "rate = 600",
    ]);
    let s = settings_from_entries(&e);
    assert_eq!(s.exchange_name, "Local");
    assert_eq!(s.data_type, "file");
    assert_eq!(s.symbol_file, "Symbols.txt");
    assert_eq!(s.data_files, vec!["a.txt", "b.txt"]);
    assert_eq!(s.num_random_orders, 250);
    assert_eq!(s.consumer_ip, "127.0.0.1");
    assert_eq!(s.consumer_port, 1234);
    assert_eq!(s.consumer_core, -3);
    assert_eq!(s.producer_port, 1234);
    assert_eq!(s.producer_core, -1);
    assert_eq!(s.producer_rate, 600);
    assert!(s.perf_enabled);
    assert_eq!(s.perf_output_file, "perf.csv");
}
