use vstd::prelude::*;

verus! {

/// The JSON value type of `serde_json`, carried through unchanged as the
/// parameters of a rollback statement.
#[verifier::external_type_specification]
#[verifier::external_body]
pub struct ExJsonValue(serde_json::Value);

/// Settings read from the service's configuration file.
#[derive(Debug)]
pub struct Settings {
    pub fist: FistConfig,
}

/// The coordinator's own section of the configuration.
#[derive(Debug)]
pub struct FistConfig {
    pub clear_static_times: i32,
}

impl Default for Settings {
    fn default() -> (s: Self)
        ensures
            s.fist.clear_static_times == 10,
    {
        Settings { fist: FistConfig { clear_static_times: 10 } }
    }
}

/// Marker for the messages exchanged with the participating services.
pub trait Model {}

/// The envelope in which a participant reports one step of a transaction.
pub struct SyncInfoWrapper {
    pub sync_info: SyncInfo,
}

/// One participant's report on a global transaction.
pub struct SyncInfo {
    /// Identifier of the global transaction.
    pub fist_id: String,
    /// Whether this participant asks for the transaction to be rolled back.
    pub rollback: bool,
    /// The statements that undo this participant's work.
    pub rollback_sql: Vec<RollBackSql>,
    /// Whether this report closes the transaction.
    pub end: bool,
    /// Where the participant is reached for a rollback; filled in by the
    /// coordinator from the connection the report came on.
    pub service_addr: String,
    /// The port on which the participant listens.
    pub service_port: i32,
}

/// A statement that undoes part of a participant's work, with its bound
/// parameters.
pub struct RollBackSql {
    pub sql: String,
    pub params: Vec<Vec<serde_json::Value>>,
}

/// What a participant's report says, as mathematical values.
pub struct SyncInfoView {
    pub fist_id: Seq<char>,
    pub rollback: bool,
    pub rollback_sql: Seq<RollBackSqlView>,
    pub end: bool,
    pub service_addr: Seq<char>,
    pub service_port: i32,
}

/// A rollback statement and its parameters, as mathematical values.
pub struct RollBackSqlView {
    pub sql: Seq<char>,
    pub params: Seq<Seq<serde_json::Value>>,
}

impl View for RollBackSql {
    type V = RollBackSqlView;

    open spec fn view(&self) -> RollBackSqlView {
        RollBackSqlView {
            sql: self.sql@,
            params: self.params@.map_values(|p: Vec<serde_json::Value>| p@),
        }
    }
}

impl View for SyncInfo {
    type V = SyncInfoView;

    open spec fn view(&self) -> SyncInfoView {
        SyncInfoView {
            fist_id: self.fist_id@,
            rollback: self.rollback,
            rollback_sql: self.rollback_sql@.map_values(|r: RollBackSql| r@),
            end: self.end,
            service_addr: self.service_addr@,
            service_port: self.service_port,
        }
    }
}

impl Model for SyncInfoWrapper {}

impl Model for SyncInfo {}

impl Model for RollBackSql {}

/// Runs a closure when the guard goes out of scope, the way a `finally`
/// block does.
pub struct Finally<F: FnOnce()> {
    finally: Option<F>,
}

impl<F: FnOnce()> Finally<F> {
    /// The closure that the guard still has to run, if any.
    pub closed spec fn pending(&self) -> Option<F> {
        self.finally
    }

    pub fn new(f: F) -> (r: Self)
        ensures
            r.pending() == Some(f),
    {
        Finally { finally: Some(f) }
    }

    /// Hands out the closure that the guard holds, for whoever runs it when
    /// the guarded scope ends.
    pub fn into_pending(self) -> (r: Option<F>)
        ensures
            r == self.pending(),
    {
        self.finally
    }
}

} // verus!
