use mmh3::algorithms;
use mmh3::algorithms::{
    devices, merged, parse, sections, updated, Algorithm, Loading, Nvfp4Algorithm, Saving, Sections,
};

const HEADER: &str = "mmh3 cuBLASLt matmul algorithms";

fn section(key: &str, entries: &[&str]) -> Sections {
    let mut found = Sections::new();
    let list: Vec<String> = entries.iter().map(|entry| (*entry).to_owned()).collect();
    found.put(key.to_owned(), list);
    found
}

/// Saving the choices of one kind of GPU keeps what another kind saved before, so that a
/// machine with both finds each on the next run.
#[test]
fn a_save_keeps_the_sections_of_other_gpus() {
    let first = merged("", HEADER, section("cuBLASLt 1, Some GPU", &["0 0 1 2 3 a"]));
    let both = merged(&first, HEADER, section("cuBLASLt 1, Another GPU", &["0 0 4 5 6 b"]));
    let read = sections(&both, HEADER);
    assert_eq!(read.get("cuBLASLt 1, Some GPU").unwrap(), &["0 0 1 2 3 a"]);
    assert_eq!(read.get("cuBLASLt 1, Another GPU").unwrap(), &["0 0 4 5 6 b"]);

    let again = merged(&both, HEADER, section("cuBLASLt 1, Some GPU", &["0 0 7 8 9 c"]));
    let read = sections(&again, HEADER);
    assert_eq!(read.get("cuBLASLt 1, Some GPU").unwrap(), &["0 0 7 8 9 c"]);
    assert_eq!(read.get("cuBLASLt 1, Another GPU").unwrap(), &["0 0 4 5 6 b"]);
}

/// A file of one section, which is all a file held before there were sections, reads as that
/// section, and one under another header reads as nothing.
#[test]
fn reads_a_file_of_one_section() {
    let text = format!("{HEADER}\ncuBLASLt 1, Some GPU\n0 0 1 2 3 a\n");
    assert_eq!(sections(&text, HEADER).get("cuBLASLt 1, Some GPU").unwrap(), &["0 0 1 2 3 a"]);
    assert!(sections(&text, "mmh3 cuBLASLt NVFP4 algorithms").is_empty());
}

#[test]
fn writes_the_sections_in_the_order_of_their_keys() {
    let first = merged("", HEADER, section("cuBLASLt 2, B", &["1", "2"]));
    let both = merged(&first, HEADER, section("cuBLASLt 2, A", &["3"]));
    assert_eq!(both, format!("{HEADER}\ncuBLASLt 2, A\n3\ncuBLASLt 2, B\n1\n2\n"));
}

#[test]
fn an_algorithm_reads_back() {
    let algorithm = Algorithm { kind: 1, bias: 0, m: 300, n: -4, k: 5376, data: [0, 1, 2, 3, 4, 5, 6, u64::MAX] };
    let text = algorithm.line();
    assert!(text.starts_with("1 0 300 -4 5376 0000000000000000 0000000000000001 "));
    assert!(text.ends_with(" ffffffffffffffff\n"));
    let read = Algorithm::parse(text.trim_end()).unwrap();
    assert_eq!((read.kind, read.bias, read.m, read.n, read.k), (1, 0, 300, -4, 5376));
    assert_eq!(read.data, algorithm.data);
}

#[test]
fn an_nvfp4_algorithm_reads_back() {
    let algorithm = Nvfp4Algorithm { m: 72, n: 128, k: 256, data: [7; 8] };
    let read = Nvfp4Algorithm::parse(algorithm.line().trim_end()).unwrap();
    assert_eq!((read.m, read.n, read.k, read.data), (72, 128, 256, [7; 8]));
}

#[test]
fn refuses_a_damaged_entry() {
    assert!(parse("1 2 3", 3).is_none());
    assert!(parse("a 2 3 0 0 0 0 0 0 0 0", 3).is_none());
    assert!(parse("1 2 3 0 0 0 0 0 0 0 g", 3).is_none());
    assert!(parse("1 2 3 0 0 0 0 0 0 0 10000000000000000", 3).is_none());
    assert!(parse("9223372036854775808 2 3 0 0 0 0 0 0 0 0", 3).is_none());
    let choice = parse("  +1 -2\t3 0 1 A f 10 0 0 ffffffffffffffff ", 3).unwrap();
    assert_eq!(choice.named, vec![1, -2, 3]);
    assert_eq!(choice.data, [0, 1, 10, 15, 16, 0, 0, u64::MAX]);
}

#[test]
fn a_line_holds_sixteen_digits_a_word() {
    assert_eq!(
        algorithms::line(&vec![5], &[1, 0, 0, 0, 0, 0, 0, 0xabc]),
        format!("5 {:016x} {} {:016x}\n", 1, vec![format!("{:016x}", 0); 6].join(" "), 0xabc),
    );
}

#[test]
fn a_file_that_would_not_change_is_not_written() {
    let text = merged("", HEADER, section("cuBLASLt 1, Some GPU", &["0 0 1 2 3 a"]));
    assert!(updated(Some(&text), HEADER, section("cuBLASLt 1, Some GPU", &["0 0 1 2 3 a"])).is_none());
    assert!(updated(Some(&text), HEADER, section("cuBLASLt 1, Some GPU", &["0 0 1 2 3 b"])).is_some());
    assert_eq!(updated(None, HEADER, section("cuBLASLt 1, Some GPU", &["0 0 1 2 3 a"])), Some(text));
}

#[test]
fn a_kind_of_gpu_is_counted_once() {
    let mut loading = Loading::new();
    let entry = "1 2 3 0 0 0 0 0 0 0 0";
    let found = section("cuBLASLt 1, Some GPU", &[entry, entry]);
    let choices = loading.take(&found, "cuBLASLt 1, Some GPU", 3).unwrap();
    assert_eq!(choices.len(), 2);
    assert_eq!(loading.taken, 2);
    loading.take(&found, "cuBLASLt 1, Some GPU", 3);
    assert_eq!(loading.taken, 2);
    // One damaged entry spoils its section.
    let damaged = section("cuBLASLt 1, Some GPU", &[entry, "damaged"]);
    assert!(loading.take(&damaged, "cuBLASLt 1, Some GPU", 3).is_none());
    assert!(loading.take(&found, "cuBLASLt 1, Another GPU", 3).is_none());
}

#[test]
fn saves_what_the_devices_chose() {
    let mut saving = Saving::new();
    assert!(Saving::new().finish().is_none());
    saving.device("cuBLASLt 1, Some GPU".to_owned(), &vec![]);
    saving.device("cuBLASLt 1, Another GPU".to_owned(), &vec!["1 2 3 0 0 0 0 0 0 0 0".to_owned()]);
    let saved = saving.finish().unwrap();
    assert_eq!(saved.len(), 1);
    assert_eq!(saved.get("cuBLASLt 1, Another GPU").unwrap().len(), 1);
}

/// Two devices of one kind may both have chosen for a shape, and the first choice is the one kept.
#[test]
fn devices_of_one_kind_share_a_section() {
    let mut saving = Saving::new();
    let key = || "cuBLASLt 1, Some GPU".to_owned();
    let words = "0 0 0 0 0 0 0 ";
    saving.device(key(), &vec![format!("4 5 6 {words}1\n"), format!("1 2 3 {words}1\n")]);
    saving.device(key(), &vec![format!("1 2 3 {words}2\n"), format!("7 8 9 {words}3\n")]);
    let saved = saving.finish().unwrap();
    assert_eq!(
        saved.get("cuBLASLt 1, Some GPU").unwrap(),
        &[format!("1 2 3 {words}1"), format!("4 5 6 {words}1"), format!("7 8 9 {words}3")],
    );
}

#[test]
fn a_driver_that_does_not_answer_has_no_device() {
    assert_eq!(devices(None), 0);
    assert_eq!(devices(Some(2)), 2);
    assert_eq!(devices(Some(100)), 16);
}

#[test]
fn an_entry_of_no_numbers_reads_back() {
    let data = [1, 2, 3, 4, 5, 6, 7, u64::MAX];
    for named in [vec![], vec![-5], vec![1, i64::MIN, i64::MAX]] {
        let text = algorithms::line(&named, &data);
        assert_eq!(text.find('\n'), Some(text.len() - 1));
        for entry in [text.as_str(), text.trim_end()] {
            let choice = parse(entry, named.len()).unwrap();
            assert_eq!((choice.named, choice.data), (named.clone(), data));
            assert!(parse(entry, named.len() + 1).is_none());
        }
    }
}

#[test]
fn devices_of_one_kind_may_come_in_either_order() {
    let words = "0 0 0 0 0 0 0 1";
    let lines = |shapes: &[&str]| shapes.iter().map(|shape| format!("{shape} {words}\n")).collect::<Vec<String>>();
    let saved = |first: &[&str], second: &[&str]| {
        let mut saving = Saving::new();
        saving.device("cuBLASLt 1, Some GPU".to_owned(), &lines(first));
        saving.device("cuBLASLt 1, Some GPU".to_owned(), &lines(second));
        merged("", HEADER, saving.finish().unwrap())
    };
    assert_eq!(saved(&["4 5 6", "1 2 3"], &["7 8 9", "2 2 2"]), saved(&["7 8 9", "2 2 2"], &["4 5 6", "1 2 3"]));
}

#[test]
fn a_replaced_section_may_hold_carriage_returns() {
    let text = format!("{HEADER}\ncuBLASLt 1, Some GPU\n0 0 1 2 3 a\r\r\n");
    let saved = || section("cuBLASLt 1, Some GPU", &["0 0 1 2 3 b"]);
    let once = updated(Some(&text), HEADER, saved()).unwrap();
    assert!(updated(Some(&once), HEADER, saved()).is_none());
}
