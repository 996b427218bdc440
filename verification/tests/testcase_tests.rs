use datagen::testcase::Testcase;

#[test]
fn it_works() {
    let testcase_1 = Testcase::new("moments1".to_string());
    assert_eq!(testcase_1.input_file, "moments1.in".to_string());
    assert_eq!(testcase_1.output_file, "moments1.out".to_string());
    assert_eq!(testcase_1.io_prefix, "moments1".to_string());
    assert_eq!(testcase_1.input_subfix, "in".to_string());
    assert_eq!(testcase_1.output_subfix, "out".to_string());
}

#[test]
fn new_starts_without_content() {
    let case = Testcase::new("a".to_string());
    assert_eq!(case.input_content, "");
    assert_eq!(case.output_content, "");
}

#[test]
fn suffixes_rename_the_files() {
    let mut case = Testcase::new("sum".to_string());
    case.input_subfix("txt".to_string()).output_subfix("ans".to_string());
    assert_eq!(case.input_subfix, "txt");
    assert_eq!(case.output_subfix, "ans");
    assert_eq!(case.input_file, "sum.txt");
    assert_eq!(case.output_file, "sum.ans");
    assert_eq!(case.io_prefix, "sum");
}

#[test]
fn prefix_alone_keeps_the_file_names() {
    let mut case = Testcase::new("sum".to_string());
    case.io_prefix("other".to_string());
    assert_eq!(case.io_prefix, "other");
    assert_eq!(case.input_file, "sum.in");
    assert_eq!(case.output_file, "sum.out");
    case.input_subfix("in".to_string());
    assert_eq!(case.input_file, "other.in");
    assert_eq!(case.output_file, "sum.out");
}

#[test]
fn file_names_can_be_set_by_hand() {
    let mut case = Testcase::new("sum".to_string());
    case.input_file("given.dat".to_string()).output_file("wanted.dat".to_string());
    assert_eq!(case.input_file, "given.dat");
    assert_eq!(case.output_file, "wanted.dat");
    assert_eq!(case.input_subfix, "in");
    assert_eq!(case.output_subfix, "out");
}

#[test]
fn writes_append_in_order() {
    let mut case = Testcase::new("sum".to_string());
    case.input_write("3").input_writeln(" 4").input_write("5");
    case.output_writeln("12").output_write("end");
    assert_eq!(case.input_content, "3 4\n5");
    assert_eq!(case.output_content, "12\nend");
}
