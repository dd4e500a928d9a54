use conflux_consensus::account::{
    account_list_report, count_imported, execute, import_report, keys_dir, new_account_report,
    AccountCmd, ImportAccounts, ImportOutcome, KeystoreAction, ListAccounts, NewAccount,
    PasswordSource,
};

#[test]
fn keys_dir_joins_the_store_name() {
    assert_eq!(keys_dir("/home/u/keys".to_string()), "/home/u/keys/conflux");
    assert_eq!(keys_dir("/home/u/keys/".to_string()), "/home/u/keys/conflux");
    assert_eq!(keys_dir(String::new()), "conflux");
}

#[test]
fn execute_new_with_password_file() {
    let cmd = AccountCmd::New(NewAccount::new(10240, "/k".to_string(), Some("pw.txt".to_string())));
    assert_eq!(
        execute(cmd),
        KeystoreAction::Create {
            keys_dir: "/k/conflux".to_string(),
            iterations: 10240,
            password: PasswordSource::File("pw.txt".to_string()),
        }
    );
}

#[test]
fn execute_new_prompts_without_file() {
    let cmd = AccountCmd::New(NewAccount::new(0, "/k".to_string(), None));
    match execute(cmd) {
        KeystoreAction::Create { password, iterations, .. } => {
            assert_eq!(password, PasswordSource::Prompt);
            assert_eq!(iterations, 0);
        }
        other => panic!("unexpected {:?}", other),
    }
}

#[test]
fn execute_list_and_import() {
    assert_eq!(
        execute(AccountCmd::List(ListAccounts::new("/k".to_string()))),
        KeystoreAction::List { keys_dir: "/k/conflux".to_string() }
    );
    let from = vec!["a".to_string(), "b.json".to_string()];
    assert_eq!(
        execute(AccountCmd::Import(ImportAccounts::new(from.clone(), "/k".to_string()))),
        KeystoreAction::Import { keys_dir: "/k/conflux".to_string(), sources: from }
    );
}

#[test]
fn reports_of_addresses() {
    let a = [0xabu8; 20];
    let mut b = [0u8; 20];
    b[19] = 0x0f;
    assert_eq!(new_account_report(&a), format!("0x{}", "ab".repeat(20)));
    assert_eq!(
        account_list_report(&vec![a, b]),
        format!("0x{}\n0x{}0f", "ab".repeat(20), "00".repeat(19))
    );
    assert_eq!(account_list_report(&vec![]), "");
}

#[test]
fn report_of_import() {
    assert_eq!(import_report(0), "0 account(s) imported");
    assert_eq!(import_report(12), "12 account(s) imported");
    assert_eq!(import_report(u64::MAX), "18446744073709551615 account(s) imported");
}

#[test]
fn imported_count() {
    let outcomes = vec![ImportOutcome::Directory(3), ImportOutcome::File, ImportOutcome::Skipped];
    assert_eq!(count_imported(&outcomes), Some(4));
    assert_eq!(count_imported(&vec![]), Some(0));
    let over = vec![ImportOutcome::Directory(u64::MAX), ImportOutcome::File];
    assert_eq!(count_imported(&over), None);
}
