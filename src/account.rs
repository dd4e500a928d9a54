//! The key-store commands: what each one asks of the key store, and the
//! text reported once the key store has answered.
use vstd::prelude::*;
use crate::text::{decimal_of, hex_of, push_char, push_decimal, push_hex};

verus! {

/// Length of an account address in bytes.
pub const ADDRESS_LEN: usize = 20;

#[derive(Debug, PartialEq, Eq)]
pub enum AccountCmd {
    New(NewAccount),
    List(ListAccounts),
    Import(ImportAccounts),
}

#[derive(Debug, PartialEq, Eq)]
pub struct ListAccounts {
    pub path: String,
}

#[derive(Debug, PartialEq, Eq)]
pub struct NewAccount {
    pub iterations: u32,
    pub path: String,
    pub password_file: Option<String>,
}

#[derive(Debug, PartialEq, Eq)]
pub struct ImportAccounts {
    pub from: Vec<String>,
    pub to: String,
}

impl ListAccounts {
    pub fn new(path: String) -> (r: Self)
        ensures
            r.path@ == path@,
    {
        ListAccounts { path }
    }
}

impl NewAccount {
    pub fn new(iterations: u32, path: String, password_file: Option<String>) -> (r: Self)
        ensures
            r.iterations == iterations,
            r.path@ == path@,
            r.password_file == password_file,
    {
        NewAccount { iterations, path, password_file }
    }
}

impl ImportAccounts {
    pub fn new(from: Vec<String>, to: String) -> (r: Self)
        ensures
            r.from@ == from@,
            r.to@ == to@,
    {
        ImportAccounts { from, to }
    }
}

/// Where the password of a new account comes from.
#[derive(Debug, PartialEq, Eq)]
pub enum PasswordSource {
    File(String),
    Prompt,
}

/// The work a command asks of the key store.
#[derive(Debug, PartialEq, Eq)]
pub enum KeystoreAction {
    /// Create one account in the store under `keys_dir`.
    Create { keys_dir: String, iterations: u32, password: PasswordSource },
    /// List the accounts of the store under `keys_dir`.
    List { keys_dir: String },
    /// Import each of `sources` (a key directory or a key file) into `keys_dir`.
    Import { keys_dir: String, sources: Vec<String> },
}

pub open spec fn store_dir_name() -> Seq<char> {
    seq!['c', 'o', 'n', 'f', 'l', 'u', 'x']
}

/// The key directory under `path`: the component `conflux` joined to it, with
/// a separator unless `path` is empty or already ends with one.
pub open spec fn keys_dir_of(path: Seq<char>) -> Seq<char> {
    if path.len() == 0 {
        store_dir_name()
    } else if path.last() == '/' {
        path + store_dir_name()
    } else {
        path.push('/') + store_dir_name()
    }
}

/// The key directory under `path`.
pub fn keys_dir(path: String) -> (r: String)
    ensures
        r@ == keys_dir_of(path@),
{
    let mut s = path;
    let n = s.as_str().unicode_len();
    if n > 0 && s.as_str().get_char(n - 1) != '/' {
        push_char(&mut s, '/');
    }
    let ghost mid = s@;
    push_char(&mut s, 'c');
    push_char(&mut s, 'o');
    push_char(&mut s, 'n');
    push_char(&mut s, 'f');
    push_char(&mut s, 'l');
    push_char(&mut s, 'u');
    push_char(&mut s, 'x');
    assert(s@ =~= mid + store_dir_name());
    s
}

/// Decides what `cmd` asks of the key store. The key store's answer is turned
/// into the command's report by `new_account_report`, `account_list_report`
/// and `import_report`.
pub fn execute(cmd: AccountCmd) -> (r: KeystoreAction)
    ensures
        match (cmd, r) {
            (AccountCmd::New(c), KeystoreAction::Create { keys_dir, iterations, password }) => {
                &&& keys_dir@ == keys_dir_of(c.path@)
                &&& iterations == c.iterations
                &&& match (c.password_file, password) {
                    (Some(f), PasswordSource::File(g)) => g@ == f@,
                    (None, PasswordSource::Prompt) => true,
                    _ => false,
                }
            },
            (AccountCmd::List(c), KeystoreAction::List { keys_dir }) => keys_dir@ == keys_dir_of(
                c.path@,
            ),
            (AccountCmd::Import(c), KeystoreAction::Import { keys_dir, sources }) => {
                &&& keys_dir@ == keys_dir_of(c.to@)
                &&& sources@ == c.from@
            },
            _ => false,
        },
{
    match cmd {
        AccountCmd::New(c) => {
            let password = match c.password_file {
                Some(f) => PasswordSource::File(f),
                None => PasswordSource::Prompt,
            };
            KeystoreAction::Create { keys_dir: keys_dir(c.path), iterations: c.iterations, password }
        },
        AccountCmd::List(c) => KeystoreAction::List { keys_dir: keys_dir(c.path) },
        AccountCmd::Import(c) => KeystoreAction::Import { keys_dir: keys_dir(c.to), sources: c.from },
    }
}

/// An address as reported: `0x` and forty lowercase hexadecimal digits.
pub open spec fn address_text(a: Seq<u8>) -> Seq<char> {
    seq!['0', 'x'] + hex_of(a)
}

/// The addresses as reported, one per line, with no final line break.
pub open spec fn address_lines(s: Seq<[u8; ADDRESS_LEN]>) -> Seq<char>
    decreases s.len(),
{
    if s.len() == 0 {
        Seq::empty()
    } else if s.len() == 1 {
        address_text(s[0]@)
    } else {
        address_lines(s.drop_last()) + seq!['\n'] + address_text(s.last()@)
    }
}

fn push_address(s: &mut String, a: &[u8; ADDRESS_LEN])
    ensures
        final(s)@ == old(s)@ + address_text(a@),
{
    push_char(s, '0');
    push_char(s, 'x');
    push_hex(s, a.as_slice());
    assert(s@ =~= old(s)@ + address_text(a@));
}

/// The report of a created account: its address.
pub fn new_account_report(address: &[u8; ADDRESS_LEN]) -> (r: String)
    ensures
        r@ == address_text(address@),
{
    let mut s = String::new();
    push_address(&mut s, address);
    assert(s@ =~= address_text(address@));
    s
}

/// The report of the listed accounts.
pub fn account_list_report(accounts: &Vec<[u8; ADDRESS_LEN]>) -> (r: String)
    ensures
        r@ == address_lines(accounts@),
{
    let mut s = String::new();
    let mut i: usize = 0;
    while i < accounts.len()
        invariant
            0 <= i <= accounts@.len(),
            s@ == address_lines(accounts@.take(i as int)),
        decreases accounts@.len() - i,
    {
        let ghost before = s@;
        if i > 0 {
            push_char(&mut s, '\n');
        }
        push_address(&mut s, &accounts[i]);
        proof {
            let t = accounts@.take(i as int + 1);
            assert(t.drop_last() =~= accounts@.take(i as int));
            if i == 0 {
                assert(before =~= Seq::<char>::empty());
                assert(s@ =~= address_text(t[0]@));
            } else {
                assert(s@ =~= address_lines(t.drop_last()) + seq!['\n'] + address_text(t.last()@));
            }
        }
        i = i + 1;
    }
    assert(accounts@.take(accounts@.len() as int) =~= accounts@);
    s
}

/// The report of an import: `<n> account(s) imported`.
pub open spec fn import_text(n: nat) -> Seq<char> {
    decimal_of(n) + seq![
        ' ', 'a', 'c', 'c', 'o', 'u', 'n', 't', '(', 's', ')', ' ', 'i', 'm', 'p', 'o', 'r', 't',
        'e', 'd'
    ]
}

/// The report of an import of `imported` accounts.
pub fn import_report(imported: u64) -> (r: String)
    ensures
        r@ == import_text(imported as nat),
{
    let mut s = String::new();
    push_decimal(&mut s, imported);
    let ghost mid = s@;
    push_char(&mut s, ' ');
    push_char(&mut s, 'a');
    push_char(&mut s, 'c');
    push_char(&mut s, 'c');
    push_char(&mut s, 'o');
    push_char(&mut s, 'u');
    push_char(&mut s, 'n');
    push_char(&mut s, 't');
    push_char(&mut s, '(');
    push_char(&mut s, 's');
    push_char(&mut s, ')');
    push_char(&mut s, ' ');
    push_char(&mut s, 'i');
    push_char(&mut s, 'm');
    push_char(&mut s, 'p');
    push_char(&mut s, 'o');
    push_char(&mut s, 'r');
    push_char(&mut s, 't');
    push_char(&mut s, 'e');
    push_char(&mut s, 'd');
    assert(mid =~= decimal_of(imported as nat));
    assert(s@ =~= import_text(imported as nat));
    s
}

/// What importing one source gave: a directory's keys, a single key file, or
/// nothing for a path that is neither.
#[derive(Debug, PartialEq, Eq)]
pub enum ImportOutcome {
    Directory(u64),
    File,
    Skipped,
}

pub open spec fn outcome_count(o: ImportOutcome) -> nat {
    match o {
        ImportOutcome::Directory(n) => n as nat,
        ImportOutcome::File => 1,
        ImportOutcome::Skipped => 0,
    }
}

/// The number of accounts imported over all outcomes.
pub open spec fn imported_total(s: Seq<ImportOutcome>) -> nat
    decreases s.len(),
{
    if s.len() == 0 {
        0
    } else {
        imported_total(s.drop_last()) + outcome_count(s.last())
    }
}

/// The number of accounts imported, or `None` where it exceeds `u64`.
pub fn count_imported(outcomes: &Vec<ImportOutcome>) -> (r: Option<u64>)
    ensures
        match r {
            Some(n) => n as nat == imported_total(outcomes@),
            None => imported_total(outcomes@) > u64::MAX,
        },
{
    let mut total: u64 = 0;
    let mut i: usize = 0;
    while i < outcomes.len()
        invariant
            0 <= i <= outcomes@.len(),
            total as nat == imported_total(outcomes@.take(i as int)),
        decreases outcomes@.len() - i,
    {
        let step: u64 = match &outcomes[i] {
            ImportOutcome::Directory(n) => *n,
            ImportOutcome::File => 1,
            ImportOutcome::Skipped => 0,
        };
        proof {
            let t = outcomes@.take(i as int + 1);
            assert(t.drop_last() =~= outcomes@.take(i as int));
            assert(step as nat == outcome_count(t.last()));
        }
        if step > u64::MAX - total {
            proof {
                lemma_total_grows(outcomes@, i as int + 1);
            }
            return None;
        }
        total = total + step;
        i = i + 1;
    }
    assert(outcomes@.take(outcomes@.len() as int) =~= outcomes@);
    Some(total)
}

proof fn lemma_total_grows(s: Seq<ImportOutcome>, k: int)
    requires
        0 <= k <= s.len(),
    ensures
        imported_total(s.take(k)) <= imported_total(s),
    decreases s.len(),
{
    if k < s.len() {
        assert(s.drop_last().take(k) =~= s.take(k));
        lemma_total_grows(s.drop_last(), k);
    } else {
        assert(s.take(k) =~= s);
    }
}

} // verus!
