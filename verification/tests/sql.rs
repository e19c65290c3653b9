use txkv::err::Error;
use txkv::sql::{throw, Context, CursorDoc, Options, Statement, Strand, ThrowStatement, Value};
use txkv::backend::BackendKind;
use txkv::ds::{Config, Datastore};

fn open_mem() -> Datastore {
    let config = Config { node_id: "b7afc077-2123-476f-bee0-43d7504f1e0a".to_string() };
    Datastore::open(BackendKind::Memory, String::new(), config).unwrap()
}

#[test]
fn throw_basic() {
    let sql = "THROW 'Record does not exist'";
    let res = throw(sql);
    let out = res.unwrap().1;
    assert_eq!("THROW 'Record does not exist'", out.to_display_string())
}

#[test]
fn throw_keyword_any_case() {
    let out = throw("throw 'x'").unwrap().1;
    assert_eq!(out.error.as_str(), "x");
    let out = throw("ThRoW \t 'x'").unwrap().1;
    assert_eq!(out.error.as_str(), "x");
}

#[test]
fn throw_double_quotes_and_rest() {
    let (rest, out) = throw("THROW \"boom\"; SELECT").unwrap();
    assert_eq!(out.error.as_str(), "boom");
    assert_eq!(rest, "; SELECT");
}

#[test]
fn throw_rejects_malformed() {
    assert!(throw("THROW").is_none());
    assert!(throw("THROW'x'").is_none());
    assert!(throw("THROW 'unclosed").is_none());
    assert!(throw("THROW x").is_none());
    assert!(throw("GROWL 'x'").is_none());
    assert!(throw("THR").is_none());
}

#[test]
fn throw_empty_message() {
    let out = throw("THROW ''").unwrap().1;
    assert_eq!(out.error.as_str(), "");
    assert_eq!(out.to_display_string(), "THROW ''");
}

#[test]
fn throw_is_not_writeable() {
    let st = ThrowStatement { error: Strand("x".to_string()) };
    assert!(!st.writeable());
    let st = Statement::Throw(ThrowStatement { error: Strand("x".to_string()) });
    assert!(!st.writeable());
}

#[test]
fn compute_propagates_thrown_message() {
    let ds = open_mem();
    let txn = ds.transaction(false, false).unwrap();
    let st = ThrowStatement { error: Strand("Record does not exist".to_string()) };
    let ctx = Context { cancelled: false };
    let opt = Options { ns: "test".to_string(), db: "test".to_string() };
    let r = st.compute(&ctx, &opt, &txn, None);
    match r {
        Err(Error::Thrown(m)) => assert_eq!(m, "Record does not exist"),
        other => panic!("expected Thrown, got {:?}", other.is_ok()),
    }
}

#[test]
fn compute_leaves_no_side_effects() {
    let mut ds = open_mem();
    let mut w = ds.transaction(true, false).unwrap();
    let st = Statement::Throw(ThrowStatement { error: Strand("boom".to_string()) });
    let ctx = Context { cancelled: false };
    let opt = Options { ns: "test".to_string(), db: "test".to_string() };
    let r = st.compute(&ctx, &opt, &w, Some(&CursorDoc { doc: Value::Null }));
    assert!(matches!(r, Err(Error::Thrown(_))));
    // nothing was staged or committed by the failing statement
    w.commit(&mut ds).unwrap();
    let mut reader = ds.transaction(false, false).unwrap();
    let scanned = reader.scan(&b"".to_vec(), &b"\xff".to_vec()).unwrap();
    assert!(scanned.is_empty());
    reader.cancel().unwrap();
}

#[test]
fn thrown_message_surfaces_unchanged() {
    let e = Error::Thrown("exactly this text".to_string());
    assert_eq!(e.message(), "exactly this text");
}

#[test]
fn parse_then_display_round_trips() {
    let (rest, out) = throw("THROW 'a b c'").unwrap();
    assert_eq!(rest, "");
    assert_eq!(out.to_display_string(), "THROW 'a b c'");
}
