use vstd::prelude::*;
use vstd::string::*;

use crate::model::{SyncInfo, SyncInfoView, SyncInfoWrapper};
use dashmap::DashMap;

verus! {

/// The concurrent map of `dashmap` in which the coordinator keeps what it
/// knows of each open transaction, keyed by transaction identifier.
#[verifier::external_type_specification]
#[verifier::external_body]
#[verifier::reject_recursive_types(K)]
#[verifier::reject_recursive_types(V)]
#[verifier::reject_recursive_types(S)]
pub struct ExDashMap<K, V, S>(DashMap<K, V, S>);

/// The reports that a map of reports holds, each list under the transaction
/// identifier it is filed by.
pub uninterp spec fn report_entries(m: DashMap<String, Vec<SyncInfo>>) -> Map<Seq<char>, Seq<SyncInfoView>>;

/// The flags that a map of flags holds, by transaction identifier.
pub uninterp spec fn flag_entries(m: DashMap<String, bool>) -> Map<Seq<char>, bool>;

/// `DashMap::new`, for reports: the map starts empty.
#[verifier::external_body]
fn new_report_map() -> (created: DashMap<String, Vec<SyncInfo>>)
    ensures
        report_entries(created).dom() == Set::<Seq<char>>::empty(),
{
    DashMap::new()
}

/// `DashMap::insert`, for reports: the key now maps to the given list, and
/// every other key keeps its list.
#[verifier::external_body]
fn report_map_insert(m: &mut DashMap<String, Vec<SyncInfo>>, key: String, value: Vec<SyncInfo>)
    ensures
        report_entries(*final(m)) == report_entries(*old(m)).insert(key@, value@.map_values(|i: SyncInfo| i@)),
{
    m.insert(key, value);
}

/// `DashMap::remove`, for reports: the key leaves the map, and its list, if
/// it had one, is handed back.
#[verifier::external_body]
fn report_map_remove(m: &mut DashMap<String, Vec<SyncInfo>>, key: &String) -> (removed: Option<Vec<SyncInfo>>)
    ensures
        report_entries(*final(m)) == report_entries(*old(m)).remove(key@),
        removed is Some <==> report_entries(*old(m)).contains_key(key@),
        removed matches Some(v) ==> v@.map_values(|i: SyncInfo| i@) == report_entries(*old(m))[key@],
{
    m.remove(key).map(|entry| entry.1)
}

/// `DashMap::contains_key`, for reports.
#[verifier::external_body]
fn report_map_contains(m: &DashMap<String, Vec<SyncInfo>>, key: &String) -> (found: bool)
    ensures
        found == report_entries(*m).contains_key(key@),
{
    m.contains_key(key)
}

/// `DashMap::new`, for flags: the map starts empty.
#[verifier::external_body]
fn new_flag_map() -> (created: DashMap<String, bool>)
    ensures
        flag_entries(created).dom() == Set::<Seq<char>>::empty(),
{
    DashMap::new()
}

/// `DashMap::insert`, for flags: the key now maps to the given flag, and
/// every other key keeps its flag.
#[verifier::external_body]
fn flag_map_insert(m: &mut DashMap<String, bool>, key: String, value: bool)
    ensures
        flag_entries(*final(m)) == flag_entries(*old(m)).insert(key@, value),
{
    m.insert(key, value);
}

/// `DashMap::remove`, for flags: the key leaves the map.
#[verifier::external_body]
fn flag_map_remove(m: &mut DashMap<String, bool>, key: &String)
    ensures
        flag_entries(*final(m)) == flag_entries(*old(m)).remove(key@),
{
    m.remove(key);
}

/// `DashMap::get`, for flags: the flag filed under the key, if any, copied
/// out of the guard that `get` hands back.
#[verifier::external_body]
fn flag_map_get(m: &DashMap<String, bool>, key: &String) -> (flag: Option<bool>)
    ensures
        flag is Some <==> flag_entries(*m).contains_key(key@),
        flag matches Some(b) ==> b == flag_entries(*m)[key@],
{
    m.get(key).map(|entry| *entry)
}

/// The decimal digits of a natural number, most significant first.
pub open spec fn decimal_digits(n: nat) -> Seq<char>
    decreases n,
{
    if n < 10 {
        seq![(n + 48) as char]
    } else {
        decimal_digits(n / 10).push((n % 10 + 48) as char)
    }
}

/// How an integer is written in decimal: a minus sign for negative numbers,
/// then the digits of its magnitude with no leading zeros.
pub open spec fn decimal(n: int) -> Seq<char> {
    if n < 0 {
        seq!['-'] + decimal_digits((-n) as nat)
    } else {
        decimal_digits(n as nat)
    }
}

/// Whether a character is a decimal digit.
pub open spec fn is_digit(c: char) -> bool {
    48 <= c as int <= 57
}

/// The number that a run of decimal digits stands for.
pub open spec fn digits_value(t: Seq<char>) -> int
    decreases t.len(),
{
    if t.len() == 0 {
        0
    } else {
        digits_value(t.drop_last()) * 10 + (t.last() as int - 48)
    }
}

/// Whether a text is an integer in decimal: digits, with a minus sign in
/// front or not.
pub open spec fn is_decimal_text(t: Seq<char>) -> bool {
    let digits = if t.len() > 0 && t[0] == '-' { t.drop_first() } else { t };
    &&& digits.len() > 0
    &&& forall|i: int| 0 <= i < digits.len() ==> is_digit(#[trigger] digits[i])
}

/// The integer that a decimal text stands for.
pub open spec fn decimal_text_value(t: Seq<char>) -> int {
    if t.len() > 0 && t[0] == '-' {
        -digits_value(t.drop_first())
    } else {
        digits_value(t)
    }
}

/// The digits of a natural number are digits, and read back as the number.
proof fn lemma_decimal_digits(n: nat)
    ensures
        decimal_digits(n).len() > 0,
        forall|i: int| 0 <= i < decimal_digits(n).len() ==> is_digit(#[trigger] decimal_digits(n)[i]),
        digits_value(decimal_digits(n)) == n,
    decreases n,
{
    let d = decimal_digits(n);
    if n < 10 {
        assert(d.drop_last() =~= Seq::<char>::empty());
        assert(d.last() as int == n + 48);
        assert(digits_value(d.drop_last()) == 0);
        assert(digits_value(d) == n);
    } else {
        lemma_decimal_digits(n / 10);
        let front = decimal_digits(n / 10);
        assert(d.drop_last() =~= front);
        vstd::arithmetic::div_mod::lemma_fundamental_div_mod(n as int, 10);
        assert(d.last() as int == n % 10 + 48);
        assert(digits_value(d) == (n / 10) * 10 + n % 10);
        assert forall|i: int| 0 <= i < d.len() implies is_digit(#[trigger] d[i]) by {
            if i < front.len() {
                assert(d[i] == front[i]);
            }
        }
    }
}

/// How an integer is written in decimal is a decimal text, and it reads
/// back as the integer.
pub proof fn law_decimal_reads_back(n: int)
    ensures
        is_decimal_text(decimal(n)),
        decimal_text_value(decimal(n)) == n,
{
    if n < 0 {
        let m = (-n) as nat;
        lemma_decimal_digits(m);
        assert(decimal(n).drop_first() =~= decimal_digits(m));
    } else {
        lemma_decimal_digits(n as nat);
        let d = decimal_digits(n as nat);
        assert(is_digit(d[0]));
    }
}

/// `i32::to_string`: std's `Display` for integers writes them in decimal.
#[verifier::external_body]
fn i32_to_string(x: i32) -> (s: String)
    ensures
        s@ == decimal(x as int),
{
    x.to_string()
}

/// The address at which a participant is called back: its host as seen on
/// the connection, the port it declared, and the coordinator's endpoint.
pub open spec fn service_url(host: Seq<char>, port: i32) -> Seq<char> {
    "http://"@ + host + ":"@ + decimal(port as int) + "/fist/core"@
}

/// The callback address is the host and the declared port in the shape
/// `http://<host>:<port>/fist/core`, and the text between the host's colon
/// and `/fist/core` is an integer in decimal that reads back as the port.
pub proof fn law_callback_port_reads_back(host: Seq<char>, port: i32)
    ensures
        ({
            let a = service_url(host, port);
            let t = a.subrange(8 + host.len() as int, a.len() - 10);
            &&& a == "http://"@ + host + ":"@ + t + "/fist/core"@
            &&& is_decimal_text(t)
            &&& decimal_text_value(t) == port
        }),
{
    reveal_strlit("http://");
    reveal_strlit(":");
    reveal_strlit("/fist/core");
    let a = service_url(host, port);
    let t = a.subrange(8 + host.len() as int, a.len() - 10);
    assert(t =~= decimal(port as int));
    assert(a =~= "http://"@ + host + ":"@ + t + "/fist/core"@);
    law_decimal_reads_back(port as int);
}

/// An optional string, as its characters.
pub open spec fn opt_chars(s: Option<String>) -> Option<Seq<char>> {
    match s {
        Some(t) => Some(t@),
        None => None,
    }
}

/// A report once the coordinator has noted where its sender is reached:
/// with the peer's address known, the callback address is derived from it;
/// without one, the report is kept as it came.
pub open spec fn recorded(info: SyncInfoView, peer_ip: Option<Seq<char>>) -> SyncInfoView {
    match peer_ip {
        Some(ip) => SyncInfoView { service_addr: service_url(ip, info.service_port), ..info },
        None => info,
    }
}

/// Notes in a report the address at which its sender is called back, from
/// the IP address of the peer that sent it.
pub fn record_service_addr(sync_info: &mut SyncInfo, peer_ip: Option<String>)
    ensures
        final(sync_info)@ == recorded(old(sync_info)@, opt_chars(peer_ip)),
        peer_ip is None ==> final(sync_info)@ == old(sync_info)@,
        final(sync_info)@.fist_id == old(sync_info)@.fist_id,
        final(sync_info)@.rollback == old(sync_info)@.rollback,
        final(sync_info)@.rollback_sql == old(sync_info)@.rollback_sql,
        final(sync_info)@.end == old(sync_info)@.end,
        final(sync_info)@.service_port == old(sync_info)@.service_port,
        peer_ip matches Some(ip) ==> ({
            let a = final(sync_info).service_addr@;
            let t = a.subrange(8 + ip@.len() as int, a.len() - 10);
            &&& a == "http://"@ + ip@ + ":"@ + t + "/fist/core"@
            &&& is_decimal_text(t)
            &&& decimal_text_value(t) == old(sync_info).service_port
        }),
{
    proof {
        law_callback_port_reads_back(
            match opt_chars(peer_ip) {
                Some(ip) => ip,
                None => Seq::empty(),
            },
            sync_info.service_port,
        );
    }
    let port = i32_to_string(sync_info.service_port);
    if let Some(ip) = peer_ip {
        let mut url = String::from_str("http://");
        url.append(ip.as_str());
        url.append(":");
        url.append(port.as_str());
        url.append("/fist/core");
        sync_info.service_addr = url;
    }
}

/// Whether some report in the list asks for a rollback.
pub open spec fn any_rollback(reports: Seq<SyncInfoView>) -> bool {
    exists|i: int| 0 <= i < reports.len() && #[trigger] reports[i].rollback
}

/// Whether some report in the list closes its transaction.
pub open spec fn any_end(reports: Seq<SyncInfoView>) -> bool {
    exists|i: int| 0 <= i < reports.len() && #[trigger] reports[i].end
}

/// A request to a participant to undo its part of a transaction: the report
/// it sent, posted back to the address noted in it.
pub struct RollbackCall {
    pub url: String,
    pub body: SyncInfo,
}

/// A rollback request, as mathematical values.
pub struct RollbackCallView {
    pub url: Seq<char>,
    pub body: SyncInfoView,
}

impl View for RollbackCall {
    type V = RollbackCallView;

    open spec fn view(&self) -> RollbackCallView {
        RollbackCallView { url: self.url@, body: self.body@ }
    }
}

/// The rollback requests for a list of reports: one per report, in the
/// order in which the reports came, each to the address noted in it.
pub open spec fn rollback_calls(reports: Seq<SyncInfoView>) -> Seq<RollbackCallView> {
    reports.map_values(|r: SyncInfoView| RollbackCallView { url: r.service_addr, body: r })
}

/// The rollback requests answer the reports one for one: there are as many
/// requests as reports, and the i-th request carries the i-th report as its
/// body and goes to the address noted in that report.
pub proof fn law_one_rollback_request_per_report(reports: Seq<SyncInfoView>)
    ensures
        rollback_calls(reports).len() == reports.len(),
        forall|i: int| 0 <= i < reports.len() ==> (#[trigger] rollback_calls(reports)[i]).body == reports[i],
        forall|i: int| 0 <= i < reports.len() ==> (#[trigger] rollback_calls(reports)[i]).url == reports[i].service_addr,
{
}

/// The views of a list of rollback requests.
pub open spec fn calls_view(calls: Seq<RollbackCall>) -> Seq<RollbackCallView> {
    calls.map_values(|c: RollbackCall| c@)
}

/// The views of a list of reports.
pub open spec fn reports_view(reports: Seq<SyncInfo>) -> Seq<SyncInfoView> {
    reports.map_values(|r: SyncInfo| r@)
}

/// What the coordinator knows of the transactions in progress: the reports
/// received for each, whether any of them asked for a rollback, whether any
/// closed the transaction, and how many reports it has processed.
pub struct FistState {
    sync_info: DashMap<String, Vec<SyncInfo>>,
    roll_back: DashMap<String, bool>,
    end: DashMap<String, bool>,
    counter: i128,
}

impl FistState {
    /// The reports received for each open transaction, in order of arrival.
    pub closed spec fn reports(&self) -> Map<Seq<char>, Seq<SyncInfoView>> {
        report_entries(self.sync_info)
    }

    /// For each open transaction, whether a rollback was asked for.
    pub closed spec fn rollback_flags(&self) -> Map<Seq<char>, bool> {
        flag_entries(self.roll_back)
    }

    /// For each open transaction, whether a report closed it.
    pub closed spec fn end_flags(&self) -> Map<Seq<char>, bool> {
        flag_entries(self.end)
    }

    /// How many reports have been processed.
    pub closed spec fn processed(&self) -> int {
        self.counter as int
    }

    /// The state is consistent: the three maps know the same transactions;
    /// each open transaction has at least one report, all filed under its
    /// own identifier; its rollback flag says whether any report asked for a
    /// rollback; and no open transaction has been closed, since closing one
    /// forgets it.
    pub open spec fn wf(&self) -> bool {
        &&& self.rollback_flags().dom() == self.reports().dom()
        &&& self.end_flags().dom() == self.reports().dom()
        &&& forall|id: Seq<char>| #[trigger] self.reports().contains_key(id) ==> {
            &&& self.reports()[id].len() > 0
            &&& (forall|i: int| 0 <= i < self.reports()[id].len() ==> (#[trigger] self.reports()[id][i]).fist_id == id)
            &&& self.rollback_flags()[id] == any_rollback(self.reports()[id])
            &&& !self.end_flags()[id]
            &&& !any_end(self.reports()[id])
        }
    }

    /// A coordinator that knows of no transaction and has processed nothing.
    pub fn new() -> (s: Self)
        ensures
            s.wf(),
            s.reports().dom() == Set::<Seq<char>>::empty(),
            s.processed() == 0,
    {
        let s = FistState {
            sync_info: new_report_map(),
            roll_back: new_flag_map(),
            end: new_flag_map(),
            counter: 0,
        };
        s
    }

    /// The rollback flag of a transaction, if it is open.
    pub fn rollback_of(&self, fist_id: &String) -> (flag: Option<bool>)
        ensures
            flag is Some <==> self.rollback_flags().contains_key(fist_id@),
            flag matches Some(b) ==> b == self.rollback_flags()[fist_id@],
    {
        flag_map_get(&self.roll_back, fist_id)
    }

    /// Whether a transaction is open.
    pub fn is_open(&self, fist_id: &String) -> (open: bool)
        ensures
            open == self.reports().contains_key(fist_id@),
    {
        report_map_contains(&self.sync_info, fist_id)
    }

    /// How many reports have been processed.
    pub fn counter(&self) -> (n: i128)
        ensures
            n == self.processed(),
    {
        self.counter
    }
}

/// The requests that roll back every participant of a transaction: one per
/// report, posted to the address the report carries, with the report as
/// its body.
pub fn send_rollback(infos: Vec<SyncInfo>) -> (calls: Vec<RollbackCall>)
    ensures
        calls_view(calls@) == rollback_calls(reports_view(infos@)),
        calls@.len() == infos@.len(),
        forall|i: int| 0 <= i < infos@.len() ==> (#[trigger] calls@[i])@.body == infos@[i]@,
        forall|i: int| 0 <= i < infos@.len() ==> (#[trigger] calls@[i]).url@ == infos@[i].service_addr@,
{
    let ghost given = reports_view(infos@);
    let ghost received = infos@;
    let mut infos = infos;
    let mut calls: Vec<RollbackCall> = Vec::new();
    while infos.len() > 0
        invariant
            infos@.len() + calls@.len() == given.len(),
            forall|i: int| 0 <= i < calls@.len() ==> #[trigger] calls@[i]@ == (RollbackCallView { url: given[i].service_addr, body: given[i] }),
            forall|i: int| 0 <= i < infos@.len() ==> #[trigger] infos@[i]@ == given[calls@.len() + i],
        decreases infos@.len(),
    {
        let info = infos.remove(0);
        let url = info.service_addr.clone();
        calls.push(RollbackCall { url, body: info });
    }
    assert(calls_view(calls@) =~= rollback_calls(given));
    proof {
        law_one_rollback_request_per_report(given);
        assert forall|i: int| 0 <= i < received.len() implies (#[trigger] calls@[i])@.body == received[i]@
            && calls@[i].url@ == received[i].service_addr@ by {
            assert(calls_view(calls@)[i] == calls@[i]@);
            assert(given[i] == received[i]@);
        }
    }
    calls
}

/// Requests accumulate: a list of reports with one more report appended
/// asks for a rollback, or closes the transaction, exactly when the list
/// did or the new report does; a single report asks for what it says.
pub proof fn law_requests_accumulate(reports: Seq<SyncInfoView>, report: SyncInfoView)
    ensures
        any_rollback(reports.push(report)) == (any_rollback(reports) || report.rollback),
        any_end(reports.push(report)) == (any_end(reports) || report.end),
        any_rollback(seq![report]) == report.rollback,
        any_end(seq![report]) == report.end,
        !any_rollback(Seq::<SyncInfoView>::empty()),
        !any_end(Seq::<SyncInfoView>::empty()),
{
    assert(seq![report][0] == report);
    let all = reports.push(report);
    assert(all[reports.len() as int] == report);
    if any_rollback(reports) {
        let i = choose|i: int| 0 <= i < reports.len() && #[trigger] reports[i].rollback;
        assert(all[i] == reports[i]);
    }
    if any_rollback(all) {
        let i = choose|i: int| 0 <= i < all.len() && #[trigger] all[i].rollback;
        if i < reports.len() {
            assert(all[i] == reports[i]);
        }
    }
    if any_end(reports) {
        let i = choose|i: int| 0 <= i < reports.len() && #[trigger] reports[i].end;
        assert(all[i] == reports[i]);
    }
    if any_end(all) {
        let i = choose|i: int| 0 <= i < all.len() && #[trigger] all[i].end;
        if i < reports.len() {
            assert(all[i] == reports[i]);
        }
    }
}

/// The reports of a transaction once a new one has arrived for it: those
/// received before, if the transaction was open, followed by the new one.
pub open spec fn reports_after(reports: Map<Seq<char>, Seq<SyncInfoView>>, report: SyncInfoView) -> Seq<SyncInfoView> {
    if reports.contains_key(report.fist_id) {
        reports[report.fist_id].push(report)
    } else {
        seq![report]
    }
}

/// Looks at a transaction after a report has been filed: once a report has
/// closed it, the transaction is forgotten, and if a rollback was asked for,
/// every report received for it is sent back to its participant to be
/// undone.
pub fn scan_static_resource(state: &mut FistState, fist_id: String, rollback: bool, end: bool) -> (calls: Vec<RollbackCall>)
    ensures
        final(state).processed() == old(state).processed(),
        old(state).reports().contains_key(fist_id@) && end ==> {
            &&& final(state).reports() == old(state).reports().remove(fist_id@)
            &&& final(state).rollback_flags() == old(state).rollback_flags().remove(fist_id@)
            &&& final(state).end_flags() == old(state).end_flags().remove(fist_id@)
            &&& calls_view(calls@) == if rollback {
                rollback_calls(old(state).reports()[fist_id@])
            } else {
                Seq::empty()
            }
        },
        !(old(state).reports().contains_key(fist_id@) && end) ==> {
            &&& final(state).reports() == old(state).reports()
            &&& final(state).rollback_flags() == old(state).rollback_flags()
            &&& final(state).end_flags() == old(state).end_flags()
            &&& calls@.len() == 0
        },
{
    if report_map_contains(&state.sync_info, &fist_id) {
        if end {
            let removed = report_map_remove(&mut state.sync_info, &fist_id);
            flag_map_remove(&mut state.roll_back, &fist_id);
            flag_map_remove(&mut state.end, &fist_id);
            if rollback {
                let infos = match removed {
                    Some(v) => v,
                    None => Vec::new(),
                };
                return send_rollback(infos);
            }
            let none: Vec<RollbackCall> = Vec::new();
            assert(calls_view(none@) =~= Seq::empty());
            return none;
        }
    }
    Vec::new()
}

/// What processing one report does to the coordinator's state, and which
/// rollback requests it yields. The report is filed under its transaction
/// and counted. A report that does not close its transaction leaves the
/// transaction open, with the report appended to those received before and
/// the rollback flag set if any of them asked for a rollback; nothing is
/// sent. A report that closes its transaction makes the coordinator forget
/// the transaction, and if any of its reports, the closing one included,
/// asked for a rollback, every report is sent back to its participant, in
/// the order of arrival. Other transactions are left as they were.
pub open spec fn step(pre: FistState, report: SyncInfoView, post: FistState, calls: Seq<RollbackCallView>) -> bool {
    let id = report.fist_id;
    let all = reports_after(pre.reports(), report);
    &&& post.processed() == pre.processed() + 1
    &&& if report.end {
        &&& post.reports() == pre.reports().remove(id)
        &&& post.rollback_flags() == pre.rollback_flags().remove(id)
        &&& post.end_flags() == pre.end_flags().remove(id)
        &&& calls == if any_rollback(all) {
            rollback_calls(all)
        } else {
            Seq::empty()
        }
    } else {
        &&& post.reports() == pre.reports().insert(id, all)
        &&& post.rollback_flags() == pre.rollback_flags().insert(id, any_rollback(all))
        &&& post.end_flags() == pre.end_flags().insert(id, false)
        &&& calls.len() == 0
    }
}

/// Processes one report from a participant: notes where the participant is
/// reached, files the report under its transaction, folds its rollback and
/// end requests into the transaction's flags, and, when the report closes
/// the transaction, forgets it and returns the rollback requests to send if
/// any report asked for a rollback.
pub fn process_sync_info(state: &mut FistState, wrapper: SyncInfoWrapper, peer_ip: Option<String>) -> (calls: Vec<RollbackCall>)
    requires
        old(state).wf(),
        old(state).processed() < i128::MAX,
    ensures
        final(state).wf(),
        step(*old(state), recorded(wrapper.sync_info@, opt_chars(peer_ip)), *final(state), calls_view(calls@)),
        ({
            let report = recorded(wrapper.sync_info@, opt_chars(peer_ip));
            let all = reports_after(old(state).reports(), report);
            report.end && any_rollback(all) ==> {
                &&& calls@.len() == all.len()
                &&& forall|i: int| 0 <= i < all.len() ==> (#[trigger] calls@[i])@.body == all[i]
                &&& forall|i: int| 0 <= i < all.len() ==> (#[trigger] calls@[i]).url@ == all[i].service_addr
            }
        }),
        ({
            let report = recorded(wrapper.sync_info@, opt_chars(peer_ip));
            !(report.end && any_rollback(reports_after(old(state).reports(), report))) ==> calls@.len() == 0
        }),
{
    let ghost before = *state;
    let mut info = wrapper.sync_info;
    record_service_addr(&mut info, peer_ip);
    let ghost report = info@;
    let fist_id = info.fist_id.clone();
    let roll_back = info.rollback;
    let end = info.end;
    let ghost all = reports_after(before.reports(), report);

    let mut infos = match report_map_remove(&mut state.sync_info, &fist_id) {
        Some(v) => v,
        None => Vec::new(),
    };
    let ghost earlier = reports_view(infos@);
    infos.push(info);
    proof {
        assert(reports_view(infos@) =~= earlier.push(report));
        assert(reports_view(infos@) =~= all);
        law_requests_accumulate(earlier, report);
        if !before.reports().contains_key(fist_id@) {
            assert(earlier =~= Seq::<SyncInfoView>::empty());
            assert(!any_rollback(earlier));
            assert(!any_end(earlier));
        }
    }
    report_map_insert(&mut state.sync_info, fist_id.clone(), infos);
    assert(state.reports() =~= before.reports().insert(fist_id@, all));

    let previous_rollback = match flag_map_get(&state.roll_back, &fist_id) {
        Some(b) => b,
        None => false,
    };
    let new_rollback = previous_rollback || roll_back;
    flag_map_insert(&mut state.roll_back, fist_id.clone(), new_rollback);
    let previous_end = match flag_map_get(&state.end, &fist_id) {
        Some(b) => b,
        None => false,
    };
    let new_end = previous_end || end;
    flag_map_insert(&mut state.end, fist_id.clone(), new_end);
    assert(new_rollback == any_rollback(all));
    assert(new_end == end);

    let calls = scan_static_resource(state, fist_id, new_rollback, new_end);
    state.counter = state.counter + 1;
    proof {
        assert forall|id: Seq<char>| #[trigger] state.reports().contains_key(id) implies {
            &&& state.reports()[id].len() > 0
            &&& (forall|i: int| 0 <= i < state.reports()[id].len() ==> (#[trigger] state.reports()[id][i]).fist_id == id)
            &&& state.rollback_flags()[id] == any_rollback(state.reports()[id])
            &&& !state.end_flags()[id]
            &&& !any_end(state.reports()[id])
        } by {
            if id == fist_id@ {
                assert(state.reports()[id] == all);
                assert forall|i: int| 0 <= i < all.len() implies (#[trigger] all[i]).fist_id == id by {
                    if i < all.len() - 1 {
                        assert(all[i] == before.reports()[id][i]);
                    }
                }
            }
        }
    }
    proof {
        if end {
            assert(state.reports() == before.reports().remove(fist_id@));
            assert(state.rollback_flags() == before.rollback_flags().remove(fist_id@));
            assert(state.end_flags() == before.end_flags().remove(fist_id@));
            assert(calls_view(calls@) == if any_rollback(all) {
                rollback_calls(all)
            } else {
                Seq::<RollbackCallView>::empty()
            });
            law_one_rollback_request_per_report(all);
            assert forall|i: int| 0 <= i < calls@.len() implies (#[trigger] calls@[i])@ == calls_view(calls@)[i] by {}
            assert(calls@.len() == calls_view(calls@).len());
        } else {
            assert(state.reports() == before.reports().insert(fist_id@, all));
            assert(state.rollback_flags() == before.rollback_flags().insert(fist_id@, any_rollback(all)));
            assert(state.end_flags() == before.end_flags().insert(fist_id@, false));
            assert(calls_view(calls@).len() == 0);
        }
    }
    calls
}

/// While a transaction receives reports that do not close it, it stays open
/// with exactly the reports received so far, and no rollback request is
/// sent.
proof fn lemma_open_prefix(
    states: Seq<FistState>,
    reports: Seq<SyncInfoView>,
    calls: Seq<Seq<RollbackCallView>>,
    k: int,
)
    requires
        0 <= k < reports.len(),
        states.len() == reports.len() + 1,
        calls.len() == reports.len(),
        forall|j: int| 0 <= j < reports.len() ==> step(states[j], #[trigger] reports[j], states[j + 1], calls[j]),
        forall|j: int| 0 <= j < reports.len() ==> (#[trigger] reports[j]).fist_id == reports[0].fist_id,
        forall|j: int| 0 <= j < reports.len() - 1 ==> !(#[trigger] reports[j]).end,
        !states[0].reports().contains_key(reports[0].fist_id),
    ensures
        k == 0 ==> !states[k].reports().contains_key(reports[0].fist_id),
        k > 0 ==> states[k].reports().contains_key(reports[0].fist_id)
            && states[k].reports()[reports[0].fist_id] == reports.take(k),
        forall|j: int| 0 <= j < k ==> (#[trigger] calls[j]).len() == 0,
    decreases k,
{
    let id = reports[0].fist_id;
    if k > 0 {
        lemma_open_prefix(states, reports, calls, k - 1);
        assert(step(states[k - 1], reports[k - 1], states[k], calls[k - 1]));
        assert(reports[k - 1].fist_id == id);
        assert(!reports[k - 1].end);
        if k == 1 {
            assert(reports.take(1) =~= seq![reports[0]]);
        } else {
            assert(reports.take(k) =~= reports.take(k - 1).push(reports[k - 1]));
        }
    }
}

/// Closing a transaction answers every one of its participants: when a
/// transaction that was not open receives reports one after another, none
/// closing it but the last, then no rollback request is sent before the
/// last report, the transaction is forgotten after it, and the last report
/// yields one rollback request per report, in the order of arrival, exactly
/// when some report asked for a rollback.
pub proof fn law_closing_rolls_back_every_participant(
    states: Seq<FistState>,
    reports: Seq<SyncInfoView>,
    calls: Seq<Seq<RollbackCallView>>,
)
    requires
        reports.len() > 0,
        states.len() == reports.len() + 1,
        calls.len() == reports.len(),
        forall|k: int| 0 <= k < reports.len() ==> step(states[k], #[trigger] reports[k], states[k + 1], calls[k]),
        forall|k: int| 0 <= k < reports.len() ==> (#[trigger] reports[k]).fist_id == reports[0].fist_id,
        forall|k: int| 0 <= k < reports.len() - 1 ==> !(#[trigger] reports[k]).end,
        reports.last().end,
        !states[0].reports().contains_key(reports[0].fist_id),
    ensures
        forall|k: int| 0 <= k < reports.len() - 1 ==> (#[trigger] calls[k]).len() == 0,
        calls.last() == if any_rollback(reports) {
            rollback_calls(reports)
        } else {
            Seq::empty()
        },
        any_rollback(reports) ==> calls.last().len() == reports.len(),
        any_rollback(reports) ==> forall|i: int| 0 <= i < reports.len() ==> (#[trigger] calls.last()[i]).body == reports[i],
        any_rollback(reports) ==> forall|i: int| 0 <= i < reports.len() ==> (#[trigger] calls.last()[i]).url == reports[i].service_addr,
        !any_rollback(reports) ==> calls.last().len() == 0,
        !states.last().reports().contains_key(reports[0].fist_id),
{
    law_one_rollback_request_per_report(reports);
    let id = reports[0].fist_id;
    let n = reports.len() as int;
    lemma_open_prefix(states, reports, calls, n - 1);
    assert(step(states[n - 1], reports[n - 1], states[n], calls[n - 1]));
    assert(reports[n - 1].fist_id == id);
    let all = reports_after(states[n - 1].reports(), reports[n - 1]);
    if n == 1 {
        assert(all =~= reports);
    } else {
        assert(reports.take(n - 1).push(reports[n - 1]) =~= reports);
    }
}

/// A report touches only its own transaction: every other transaction keeps
/// its reports and its flags.
pub proof fn law_other_transactions_untouched(
    pre: FistState,
    report: SyncInfoView,
    post: FistState,
    calls: Seq<RollbackCallView>,
    other: Seq<char>,
)
    requires
        step(pre, report, post, calls),
        other != report.fist_id,
    ensures
        post.reports().contains_key(other) == pre.reports().contains_key(other),
        pre.reports().contains_key(other) ==> post.reports()[other] == pre.reports()[other],
        post.rollback_flags().contains_key(other) == pre.rollback_flags().contains_key(other),
        pre.rollback_flags().contains_key(other) ==> post.rollback_flags()[other] == pre.rollback_flags()[other],
        post.end_flags().contains_key(other) == pre.end_flags().contains_key(other),
        pre.end_flags().contains_key(other) ==> post.end_flags()[other] == pre.end_flags()[other],
{
}

/// Once a participant asks for a rollback, the request stands for as long
/// as the transaction is open: a later report cannot withdraw it.
pub proof fn law_rollback_request_sticks(
    pre: FistState,
    report: SyncInfoView,
    post: FistState,
    calls: Seq<RollbackCallView>,
)
    requires
        pre.wf(),
        step(pre, report, post, calls),
        pre.rollback_flags().contains_key(report.fist_id),
        pre.rollback_flags()[report.fist_id],
    ensures
        post.rollback_flags().contains_key(report.fist_id) ==> post.rollback_flags()[report.fist_id],
        report.end ==> calls == rollback_calls(reports_after(pre.reports(), report)),
{
    let id = report.fist_id;
    let all = reports_after(pre.reports(), report);
    assert(pre.reports().contains_key(id));
    law_requests_accumulate(pre.reports()[id], report);
}

} // verus!
