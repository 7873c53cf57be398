use cryo::cli::{prompt, prompt_text, read_line, Command};

#[test]
fn prompt_prints_correctly() {
    let input = ".exit\n";

    prompt(input).unwrap();

    assert_eq!("> ", prompt_text());
}

#[test]
fn prompt_handles_statements() {
    let input = "\n";

    let res = prompt(input).unwrap();
    assert_eq!(Command::Statement(String::default()), res);
}

#[test]
#[should_panic(expected = "unrecognized command '.something_wrong'")]
fn prompt_unrecognized_command() {
    let input = ".something_wrong\n";

    prompt(input).unwrap();
}

#[test]
fn prompt_reads_commands() {
    assert_eq!(prompt(".exit\n"), Ok(Command::Exit));
    assert_eq!(prompt(".structure  \n"), Ok(Command::Structure));
    assert_eq!(prompt(".populate 12\n"), Ok(Command::Populate(12)));
    assert_eq!(
        prompt(" insert 1 a b\n"),
        Ok(Command::Statement(String::from(" insert 1 a b")))
    );
    assert_eq!(
        prompt(".populate\n"),
        Err(String::from("populate command requires int argument for the number of records"))
    );
    assert_eq!(
        prompt(".populate x\n"),
        Err(String::from("number of records should be a valid number"))
    );
    assert_eq!(prompt(".structure x\n"), Err(String::from("unrecognized command '.structure x'")));
    assert_eq!(read_line(".exit\n"), Err(String::from("unrecognized command '.exit\n'")));
    assert_eq!(Command::Populate(1).clone(), Command::Populate(1));
}
