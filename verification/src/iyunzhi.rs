//! Queries against the YunZhi BI reporting service: which reports exist,
//! what each request carries, how pages of rows are gathered, filtered and
//! reported back.
//!
//! The HTTP exchange itself happens outside the library: the caller sends
//! what `build_payload` gives, and hands each decoded response to
//! `take_page` until it says the rows are complete.

use crate::calendar::{CalendarDate, date_text, is_valid, is_valid_date, previous};
use crate::json::{Json, JsonNumber, JsonValue, Num, get, lookup, members_model, width};
use crate::text::{is_text, parse_i32_spec, parse_u8_spec, split_on, trim, views};
use vstd::prelude::*;
use vstd::string::StringExecFns;

verus! {

/// Reports asked for by default are cut at this many pages.
pub const MAX_PAGES: usize = 50;

pub const DEFAULT_PAGE_SIZE: usize = 200;

pub const DEFAULT_MAX_ROWS: usize = 200;

pub const MAX_MAX_ROWS: usize = 1000;

/// Raw responses longer than this many bytes of JSON are summarised.
pub const MAX_RAW_RESPONSE_BYTES: usize = 24000;

/// How a report's request body is laid out.
#[derive(Debug, Clone, Copy, PartialEq, Eq, Structural)]
pub enum TemplateKind {
    CinemaData,
    OperatingStatistic,
    CategoryGroupSale,
    StockTrace,
    GenericDateReport,
}

/// The HTTP method of a report.
#[derive(Debug, Clone, Copy, PartialEq, Eq, Structural)]
pub enum MethodKind {
    Get,
    Post,
}

/// A report the service offers.
#[derive(Debug, Clone)]
pub struct ReportSpec {
    pub path: String,
    pub method: MethodKind,
    pub template: TemplateKind,
    /// Whether the request layout was checked against the live service.
    pub verified: bool,
}

/// What a `ReportSpec` says.
pub struct Report {
    pub path: Seq<char>,
    pub method: MethodKind,
    pub template: TemplateKind,
    pub verified: bool,
}

impl View for ReportSpec {
    type V = Report;

    open spec fn view(&self) -> Report {
        Report {
            path: self.path@,
            method: self.method,
            template: self.template,
            verified: self.verified,
        }
    }
}

/// The four named reports, each known by two aliases and by its path.
pub open spec fn named_report_for(name: Seq<char>) -> Option<Report> {
    if name == "cinema_data"@ || name == "cinemaData"@ || name == "/bi/cinema/data"@ {
        Some(Report {
            path: "/bi/cinema/data"@,
            method: MethodKind::Get,
            template: TemplateKind::CinemaData,
            verified: true,
        })
    } else if name == "operating_statistic"@ || name == "operatingStatistic"@ || name
        == "/bi/marketing/operatingStatistic"@ {
        Some(Report {
            path: "/bi/marketing/operatingStatistic"@,
            method: MethodKind::Post,
            template: TemplateKind::OperatingStatistic,
            verified: true,
        })
    } else if name == "category_group_sale"@ || name == "categoryGroupSale"@ || name
        == "/bi/goods/categoryGroupSale"@ {
        Some(Report {
            path: "/bi/goods/categoryGroupSale"@,
            method: MethodKind::Post,
            template: TemplateKind::CategoryGroupSale,
            verified: true,
        })
    } else if name == "stock_trace"@ || name == "stockTrace"@ || name == "/bi/goods/stockTrace"@ {
        Some(Report {
            path: "/bi/goods/stockTrace"@,
            method: MethodKind::Post,
            template: TemplateKind::StockTrace,
            verified: true,
        })
    } else {
        None
    }
}

/// The documented report paths that are asked for with the generic
/// date-range request.
pub open spec fn is_generic_path(p: Seq<char>) -> bool {
    ||| p == "/bi/ticket/saleDetail"@
    ||| p == "/bi/ticket/cinemaChannel"@
    ||| p == "/bi/ticket/queryFilmDailySale"@
    ||| p == "/bi/ticket/tradeStatisticReport"@
    ||| p == "/bi/ticket/tradeSaleRefund"@
    ||| p == "/bi/ticket/tradeScheduleRank"@
    ||| p == "/bi/ticket/scheduleDetail"@
    ||| p == "/bi/ticket/dayTradeSubaccount"@
    ||| p == "/bi/ticket/monthTradeSubaccount"@
    ||| p == "/bi/marketing/tradeOperatingIncome"@
    ||| p == "/bi/marketing/tradePayment"@
    ||| p == "/bi/marketing/tradeSaleRank"@
    ||| p == "/bi/marketing/saleShift"@
    ||| p == "/bi/marketing/ticketActivityFlow"@
    ||| p == "/bi/marketing/promoDetails"@
    ||| p == "/bi/card/rechargeReport"@
    ||| p == "/bi/card/salesReport"@
    ||| p == "/bi/card/payReport"@
    ||| p == "/bi/card/refundReport"@
    ||| p == "/bi/card/infoReport"@
    ||| p == "/bi/card/actReport"@
    ||| p == "/bi/goods/saleSummary"@
    ||| p == "/bi/goods/orderDetail"@
    ||| p == "/bi/goods/profitSummary"@
    ||| p == "/bi/goods/inventory"@
    ||| p == "/bi/goods/material"@
    ||| p == "/bi/coupon/saleReport"@
    ||| p == "/bi/coupon/redeemReport"@
    ||| p == "/bi/coupon/releaseReport"@
    ||| p == "/bi/finance/shiftSettlement"@
}

/// The report a name (an alias or a documented path, surrounded by any
/// white space) stands for.
pub open spec fn report_for(input: Seq<char>) -> Option<Report> {
    let name = trim(input);
    match named_report_for(name) {
        Some(r) => Some(r),
        None => if is_generic_path(name) {
            Some(Report {
                path: name,
                method: MethodKind::Post,
                template: TemplateKind::GenericDateReport,
                verified: false,
            })
        } else {
            None
        },
    }
}

fn is_generic(p: &[char]) -> (r: bool)
    ensures
        r == is_generic_path(p@),
{
    is_text(p, "/bi/ticket/saleDetail") || is_text(p, "/bi/ticket/cinemaChannel") || is_text(
        p,
        "/bi/ticket/queryFilmDailySale",
    ) || is_text(p, "/bi/ticket/tradeStatisticReport") || is_text(p, "/bi/ticket/tradeSaleRefund")
        || is_text(p, "/bi/ticket/tradeScheduleRank") || is_text(p, "/bi/ticket/scheduleDetail")
        || is_text(p, "/bi/ticket/dayTradeSubaccount") || is_text(
        p,
        "/bi/ticket/monthTradeSubaccount",
    ) || is_text(p, "/bi/marketing/tradeOperatingIncome") || is_text(
        p,
        "/bi/marketing/tradePayment",
    ) || is_text(p, "/bi/marketing/tradeSaleRank") || is_text(p, "/bi/marketing/saleShift")
        || is_text(p, "/bi/marketing/ticketActivityFlow") || is_text(
        p,
        "/bi/marketing/promoDetails",
    ) || is_text(p, "/bi/card/rechargeReport") || is_text(p, "/bi/card/salesReport") || is_text(
        p,
        "/bi/card/payReport",
    ) || is_text(p, "/bi/card/refundReport") || is_text(p, "/bi/card/infoReport") || is_text(
        p,
        "/bi/card/actReport",
    ) || is_text(p, "/bi/goods/saleSummary") || is_text(p, "/bi/goods/orderDetail") || is_text(
        p,
        "/bi/goods/profitSummary",
    ) || is_text(p, "/bi/goods/inventory") || is_text(p, "/bi/goods/material") || is_text(
        p,
        "/bi/coupon/saleReport",
    ) || is_text(p, "/bi/coupon/redeemReport") || is_text(p, "/bi/coupon/releaseReport")
        || is_text(p, "/bi/finance/shiftSettlement")
}

fn named_report(path: &str, method: MethodKind, template: TemplateKind) -> (r: ReportSpec)
    ensures
        r@ == (Report { path: path@, method, template, verified: true }),
{
    ReportSpec { path: String::from_str(path), method, template, verified: true }
}

/// The report a name stands for: one of the four named reports by alias or
/// path, or a documented path asked for with the generic request.
pub fn resolve_report(input: &str) -> (r: Option<ReportSpec>)
    ensures
        match r {
            Some(spec) => report_for(input@) == Some(spec@),
            None => report_for(input@) is None,
        },
{
    let cs = crate::text::chars_of(input);
    let t = crate::text::trim_chars(cs.as_slice());
    let n = t.as_slice();
    if is_text(n, "cinema_data") || is_text(n, "cinemaData") || is_text(n, "/bi/cinema/data") {
        return Some(named_report("/bi/cinema/data", MethodKind::Get, TemplateKind::CinemaData));
    }
    if is_text(n, "operating_statistic") || is_text(n, "operatingStatistic") || is_text(
        n,
        "/bi/marketing/operatingStatistic",
    ) {
        return Some(
            named_report(
                "/bi/marketing/operatingStatistic",
                MethodKind::Post,
                TemplateKind::OperatingStatistic,
            ),
        );
    }
    if is_text(n, "category_group_sale") || is_text(n, "categoryGroupSale") || is_text(
        n,
        "/bi/goods/categoryGroupSale",
    ) {
        return Some(
            named_report(
                "/bi/goods/categoryGroupSale",
                MethodKind::Post,
                TemplateKind::CategoryGroupSale,
            ),
        );
    }
    if is_text(n, "stock_trace") || is_text(n, "stockTrace") || is_text(n, "/bi/goods/stockTrace") {
        return Some(
            named_report("/bi/goods/stockTrace", MethodKind::Post, TemplateKind::StockTrace),
        );
    }
    if is_generic(n) {
        return Some(
            ReportSpec {
                path: crate::text::string_of(n),
                method: MethodKind::Post,
                template: TemplateKind::GenericDateReport,
                verified: false,
            },
        );
    }
    None
}

/// The message for an unknown report name.
pub open spec fn unsupported_report_message(input: Seq<char>) -> Seq<char> {
    "Unsupported BI report '"@ + input
        + "'. Use a documented alias/path returned by this tool's schema."@
}

/// `resolve_report`, or the error the query gives for a name it does not
/// know.
pub fn report_or_error(input: &str) -> (r: Result<ReportSpec, String>)
    ensures
        match r {
            Ok(spec) => report_for(input@) == Some(spec@),
            Err(m) => report_for(input@) is None && m@ == unsupported_report_message(input@),
        },
{
    match resolve_report(input) {
        Some(spec) => Ok(spec),
        None => {
            let mut m = String::from_str("Unsupported BI report '");
            m.append(input);
            m.append("'. Use a documented alias/path returned by this tool's schema.");
            Err(m)
        },
    }
}

// ---------------------------------------------------------------------------
// Dates
// ---------------------------------------------------------------------------

/// The year, month and day a `YYYY-MM-DD` text names: exactly three pieces
/// between `-`, a year that `i32` holds, a month from 1 to 12 and a day
/// that `u8` holds.
pub open spec fn date_fields(s: Seq<char>) -> Option<(i32, u8, u8)> {
    let p = split_on(s, '-');
    if p.len() == 3 {
        match (parse_i32_spec(p[0]), parse_u8_spec(p[1]), parse_u8_spec(p[2])) {
            (Some(y), Some(m), Some(d)) => if 1 <= m <= 12 {
                Some((y, m, d))
            } else {
                None
            },
            _ => None,
        }
    } else {
        None
    }
}

pub open spec fn invalid_date_message(s: Seq<char>) -> Seq<char> {
    "Invalid date '"@ + s + "', expected YYYY-MM-DD"@
}

pub open spec fn invalid_calendar_message(s: Seq<char>) -> Seq<char> {
    "Invalid calendar date '"@ + s + "'"@
}

/// The date a text names, or the error for it.
pub open spec fn date_of(s: Seq<char>) -> Result<CalendarDate, Seq<char>> {
    match date_fields(s) {
        None => Err(invalid_date_message(s)),
        Some((y, m, d)) => if is_valid_date(y as int, m as int, d as int) {
            Ok(CalendarDate { year: y, month: m, day: d })
        } else {
            Err(invalid_calendar_message(s))
        },
    }
}

fn invalid_date(input: &str) -> (m: String)
    ensures
        m@ == invalid_date_message(input@),
{
    let mut m = String::from_str("Invalid date '");
    m.append(input);
    m.append("', expected YYYY-MM-DD");
    m
}

/// Read a `YYYY-MM-DD` date.
pub fn parse_date(input: &str) -> (r: Result<CalendarDate, String>)
    ensures
        match date_of(input@) {
            Ok(d) => r == Ok::<CalendarDate, String>(d),
            Err(e) => r is Err && r->Err_0@ == e,
        },
{
    let cs = crate::text::chars_of(input);
    let parts = crate::text::split_chars(cs.as_slice(), '-');
    proof {
        assert(views(parts@).len() == parts@.len());
    }
    if parts.len() != 3 {
        return Err(invalid_date(input));
    }
    assert(parts@[0]@ == split_on(input@, '-')[0]);
    assert(parts@[1]@ == split_on(input@, '-')[1]);
    assert(parts@[2]@ == split_on(input@, '-')[2]);
    let year = match crate::text::parse_i32(parts[0].as_slice()) {
        Some(y) => y,
        None => return Err(invalid_date(input)),
    };
    let month = match crate::text::parse_u8(parts[1].as_slice()) {
        Some(m) => match crate::calendar::month_number(m) {
            Some(m) => m,
            None => return Err(invalid_date(input)),
        },
        None => return Err(invalid_date(input)),
    };
    let day = match crate::text::parse_u8(parts[2].as_slice()) {
        Some(d) => d,
        None => return Err(invalid_date(input)),
    };
    match crate::calendar::from_calendar_date(year, month, day) {
        Some(d) => Ok(d),
        None => {
            let mut m = String::from_str("Invalid calendar date '");
            m.append(input);
            m.append("'");
            Err(m)
        },
    }
}

pub open spec fn out_of_range_message(s: Seq<char>) -> Seq<char> {
    "Date '"@ + s + "' is outside the supported range"@
}

/// Midnight in China (UTC+8) at the start of the day a text names, as the
/// UTC instant the service expects: the day before, at 16:00.
pub open spec fn china_midnight_text(s: Seq<char>) -> Result<Seq<char>, Seq<char>> {
    match date_of(s) {
        Err(e) => Err(e),
        Ok(d) => match previous(d) {
            Some(p) => Ok(date_text(p) + "T16:00:00.000Z"@),
            None => Err(out_of_range_message(s)),
        },
    }
}

pub fn china_midnight_as_utc(input: &str) -> (r: Result<String, String>)
    ensures
        match china_midnight_text(input@) {
            Ok(t) => r is Ok && r->Ok_0@ == t,
            Err(e) => r is Err && r->Err_0@ == e,
        },
{
    let date = parse_date(input)?;
    match crate::calendar::previous_day(date) {
        Some(p) => {
            proof {
                assert(is_valid(p));
            }
            let mut t = crate::calendar::date_string(p);
            t.append("T16:00:00.000Z");
            Ok(t)
        },
        None => {
            let mut m = String::from_str("Date '");
            m.append(input);
            m.append("' is outside the supported range");
            Err(m)
        },
    }
}

} // verus!

verus! {

// ---------------------------------------------------------------------------
// Responses
// ---------------------------------------------------------------------------

/// A body shown in an error: line breaks turned into spaces, at most 800
/// characters.
pub open spec fn excerpt(s: Seq<char>) -> Seq<char> {
    let n: int = if s.len() < 800 {
        s.len() as int
    } else {
        800
    };
    Seq::new(n as nat, |i: int| if s[i] == '\r' || s[i] == '\n' { ' ' } else { s[i] })
}

pub fn safe_body_excerpt(text: &str) -> (r: String)
    ensures
        r@ == excerpt(text@),
{
    let cs = crate::text::chars_of(text);
    let n: usize = if cs.len() < 800 {
        cs.len()
    } else {
        800
    };
    let mut out: Vec<char> = Vec::new();
    let mut i: usize = 0;
    while i < n
        invariant
            i <= n,
            n <= cs.len(),
            cs@ == text@,
            n == excerpt(text@).len(),
            out@ == excerpt(text@).take(i as int),
        decreases n - i,
    {
        let c = cs[i];
        if c == '\r' || c == '\n' {
            out.push(' ');
        } else {
            out.push(c);
        }
        assert(out@ =~= excerpt(text@).take(i + 1));
        i += 1;
    }
    assert(out@ =~= excerpt(text@));
    crate::text::string_of(out.as_slice())
}

/// The error for a response whose HTTP status is not a success.
pub open spec fn http_failure_message(status: Seq<char>, body: Seq<char>) -> Seq<char> {
    "YunZhi BI returned HTTP "@ + status + ": "@ + excerpt(body)
}

pub fn http_failure(status: u16, body: &str) -> (m: String)
    ensures
        m@ == http_failure_message(crate::text::decimal(status as nat), body@),
{
    let digits = crate::text::decimal_text(status as u64);
    let mut m = String::from_str("YunZhi BI returned HTTP ");
    let d = crate::text::string_of(digits.as_slice());
    m.append(d.as_str());
    m.append(": ");
    let e = safe_body_excerpt(body);
    m.append(e.as_str());
    m
}

/// The error for a body that is not JSON.
pub open spec fn non_json_message(body: Seq<char>) -> Seq<char> {
    "YunZhi BI returned a non-JSON response: "@ + excerpt(body)
}

pub fn non_json_failure(body: &str) -> (m: String)
    ensures
        m@ == non_json_message(body@),
{
    let mut m = String::from_str("YunZhi BI returned a non-JSON response: ");
    let e = safe_body_excerpt(body);
    m.append(e.as_str());
    m
}

/// Whether the service says a request went through: a textual status
/// other than `SUCCESS` is a failure, reported with the response's
/// message.
pub open spec fn api_verdict(j: Json) -> Result<(), Seq<char>> {
    match get(j, "code"@) {
        Some(Json::Str(code)) => if code == "SUCCESS"@ {
            Ok(())
        } else {
            let message = match get(j, "message"@) {
                Some(Json::Str(m)) => m,
                _ => "unknown error"@,
            };
            Err("YunZhi BI API "@ + code + ": "@ + message)
        },
        _ => Ok(()),
    }
}

pub fn ensure_api_success(value: &JsonValue) -> (r: Result<(), String>)
    ensures
        match api_verdict(value@) {
            Ok(_) => r is Ok,
            Err(e) => r is Err && r->Err_0@ == e,
        },
{
    let code = match crate::json::member(value, "code") {
        Some(c) => match crate::json::as_str(c) {
            Some(s) => s,
            None => return Ok(()),
        },
        None => return Ok(()),
    };
    let cs = crate::text::chars_of(code.as_str());
    if is_text(cs.as_slice(), "SUCCESS") {
        return Ok(());
    }
    let mut m = String::from_str("YunZhi BI API ");
    m.append(code.as_str());
    m.append(": ");
    match crate::json::member(value, "message") {
        Some(v) => match crate::json::as_str(v) {
            Some(s) => m.append(s.as_str()),
            None => m.append("unknown error"),
        },
        None => m.append("unknown error"),
    }
    Err(m)
}

/// The models of a list of values.
pub open spec fn models(xs: Seq<JsonValue>) -> Seq<Json> {
    Seq::new(xs.len(), |i: int| xs[i]@)
}

/// The rows an object names under `list`, `items` or `records` (the first
/// of these that holds an array).
pub open spec fn keyed_rows(ms: Seq<(Seq<char>, Json)>) -> Option<Seq<Json>> {
    match lookup(ms, "list"@) {
        Some(Json::Array(r)) => Some(r),
        _ => match lookup(ms, "items"@) {
            Some(Json::Array(r)) => Some(r),
            _ => match lookup(ms, "records"@) {
                Some(Json::Array(r)) => Some(r),
                _ => None,
            },
        },
    }
}

pub open spec fn all_objects(xs: Seq<Json>) -> bool {
    forall|i: int| 0 <= i < xs.len() ==> #[trigger] xs[i] is Object
}

/// Where a response keeps its rows: the first list found, searching an
/// object's named lists before its members in order, and taking an array of
/// objects as the rows themselves.
pub open spec fn find_rows(j: Json) -> Option<Seq<Json>>
    decreases j, 0int,
{
    match j {
        Json::Object(ms) => match keyed_rows(ms) {
            Some(r) => Some(r),
            None => rows_in_members(ms, 0),
        },
        Json::Array(xs) => if all_objects(xs) {
            Some(xs)
        } else {
            rows_in_items(xs, 0)
        },
        _ => None,
    }
}

pub open spec fn rows_in_items(xs: Seq<Json>, k: int) -> Option<Seq<Json>>
    decreases xs, xs.len() - k,
{
    if k < 0 || k >= xs.len() {
        None
    } else {
        match find_rows(xs[k]) {
            Some(r) => Some(r),
            None => rows_in_items(xs, k + 1),
        }
    }
}

pub open spec fn rows_in_members(ms: Seq<(Seq<char>, Json)>, k: int) -> Option<Seq<Json>>
    decreases ms, ms.len() - k,
{
    if k < 0 || k >= ms.len() {
        None
    } else {
        proof {
            assert(decreases_to!(ms => ms[k]));
        }
        match find_rows(ms[k].1) {
            Some(r) => Some(r),
            None => rows_in_members(ms, k + 1),
        }
    }
}

fn find_rows_in(v: &JsonValue) -> (r: Option<&Vec<JsonValue>>)
    ensures
        match r {
            Some(xs) => find_rows(v@) == Some(models(xs@)),
            None => find_rows(v@) is None,
        },
    decreases v,
{
    proof {
        crate::json::lemma_model(*v);
    }
    match v {
        JsonValue::Object(ms) => {
            let ghost mm = members_model(ms@);
            assert(v@ == Json::Object(mm));
            match crate::json::member(v, "list") {
                Some(JsonValue::Array(rows)) => {
                    proof {
                        crate::json::lemma_model(JsonValue::Array(*rows));
                        assert(models(rows@) =~= Seq::new(
                            rows@.len(),
                            |k: int| rows@[k]@,
                        ));
                    }
                    return Some(rows);
                },
                Some(x) => {
                    proof { crate::json::lemma_model(*x); }
                },
                None => {},
            }
            match crate::json::member(v, "items") {
                Some(JsonValue::Array(rows)) => {
                    proof {
                        crate::json::lemma_model(JsonValue::Array(*rows));
                    }
                    return Some(rows);
                },
                Some(x) => {
                    proof { crate::json::lemma_model(*x); }
                },
                None => {},
            }
            match crate::json::member(v, "records") {
                Some(JsonValue::Array(rows)) => {
                    proof {
                        crate::json::lemma_model(JsonValue::Array(*rows));
                    }
                    return Some(rows);
                },
                Some(x) => {
                    proof { crate::json::lemma_model(*x); }
                },
                None => {},
            }
            assert(keyed_rows(mm) is None);
            let mut k: usize = 0;
            while k < ms.len()
                invariant
                    k <= ms.len(),
                    *v == JsonValue::Object(*ms),
                    mm == members_model(ms@),
                    find_rows(v@) == rows_in_members(mm, k as int),
                decreases ms.len() - k,
            {
                proof {
                    assert(decreases_to!(*v => (*v)->Object_0));
                    assert(decreases_to!(*ms => ms@));
                    assert(decreases_to!(ms@ => ms@[k as int]));
                    assert(decreases_to!(ms@[k as int] => ms@[k as int].1));
                }
                let found = find_rows_in(&ms[k].1);
                if found.is_some() {
                    return found;
                }
                k += 1;
            }
            None
        },
        JsonValue::Array(xs) => {
            let ghost mx = models(xs@);
            assert(v@ == Json::Array(mx));
            let mut all = true;
            let mut i: usize = 0;
            while i < xs.len()
                invariant
                    i <= xs.len(),
                    mx == models(xs@),
                    all == (forall|k: int| 0 <= k < i ==> #[trigger] mx[k] is Object),
                decreases xs.len() - i,
            {
                proof {
                    crate::json::lemma_model(xs@[i as int]);
                    assert(mx[i as int] == xs@[i as int]@);
                }
                match &xs[i] {
                    JsonValue::Object(_) => {},
                    _ => {
                        assert(!(mx[i as int] is Object));
                        all = false;
                    },
                }
                i += 1;
            }
            if all {
                return Some(xs);
            }
            let mut k: usize = 0;
            while k < xs.len()
                invariant
                    k <= xs.len(),
                    *v == JsonValue::Array(*xs),
                    mx == models(xs@),
                    find_rows(v@) == rows_in_items(mx, k as int),
                decreases xs.len() - k,
            {
                proof {
                    assert(decreases_to!(*v => (*v)->Array_0));
                    assert(decreases_to!(*xs => xs@));
                    assert(decreases_to!(xs@ => xs@[k as int]));
                }
                let found = find_rows_in(&xs[k]);
                if found.is_some() {
                    return found;
                }
                k += 1;
            }
            None
        },
        _ => None,
    }
}

} // verus!

verus! {

/// The objects among `xs`, each as its list of members.
pub open spec fn object_rows(xs: Seq<Json>) -> Seq<Seq<(Seq<char>, Json)>>
    decreases xs.len(),
{
    if xs.len() == 0 {
        Seq::empty()
    } else {
        let r = object_rows(xs.drop_last());
        match xs.last() {
            Json::Object(ms) => r.push(ms),
            _ => r,
        }
    }
}

/// The models of rows held as lists of members.
pub open spec fn rows_model(rs: Seq<Vec<(String, JsonValue)>>) -> Seq<Seq<(Seq<char>, Json)>> {
    Seq::new(rs.len(), |i: int| members_model(rs[i]@))
}

/// The rows of a response: the objects of the list `find_rows` finds.
pub fn extract_rows(value: &JsonValue) -> (r: Option<Vec<Vec<(String, JsonValue)>>>)
    ensures
        match find_rows(value@) {
            Some(items) => r is Some && rows_model(r->0@) == object_rows(items),
            None => r is None,
        },
{
    let xs = match find_rows_in(value) {
        Some(xs) => xs,
        None => return None,
    };
    let ghost mx = models(xs@);
    let mut out: Vec<Vec<(String, JsonValue)>> = Vec::new();
    let mut i: usize = 0;
    assert(mx.take(0) =~= Seq::<Json>::empty());
    while i < xs.len()
        invariant
            i <= xs.len(),
            mx == models(xs@),
            rows_model(out@) == object_rows(mx.take(i as int)),
        decreases xs.len() - i,
    {
        proof {
            crate::json::lemma_model(xs@[i as int]);
            assert(mx.take(i + 1).drop_last() =~= mx.take(i as int));
            assert(mx.take(i + 1).last() == xs@[i as int]@);
        }
        match &xs[i] {
            JsonValue::Object(ms) => {
                let ghost before = out@;
                let row = crate::json::copy_members(ms);
                out.push(row);
                assert(rows_model(out@) =~= rows_model(before).push(members_model(ms@)));
            },
            _ => {},
        }
        i += 1;
    }
    assert(mx.take(xs.len() as int) =~= mx);
    Some(out)
}

/// The total an object states under `totalItems`, `total` or `totalCount`
/// (the first of these that holds a non-negative integer).
pub open spec fn keyed_total(ms: Seq<(Seq<char>, Json)>) -> Option<u64> {
    match lookup(ms, "totalItems"@) {
        Some(Json::Number(Num::PosInt(n))) => Some(n),
        _ => match lookup(ms, "total"@) {
            Some(Json::Number(Num::PosInt(n))) => Some(n),
            _ => match lookup(ms, "totalCount"@) {
                Some(Json::Number(Num::PosInt(n))) => Some(n),
                _ => None,
            },
        },
    }
}

/// The first total a response states, searching an object's own keys
/// before its members, and arrays item by item.
pub open spec fn find_total(j: Json) -> Option<u64>
    decreases j, 0int,
{
    match j {
        Json::Object(ms) => match keyed_total(ms) {
            Some(n) => Some(n),
            None => total_in_members(ms, 0),
        },
        Json::Array(xs) => total_in_items(xs, 0),
        _ => None,
    }
}

pub open spec fn total_in_items(xs: Seq<Json>, k: int) -> Option<u64>
    decreases xs, xs.len() - k,
{
    if k < 0 || k >= xs.len() {
        None
    } else {
        match find_total(xs[k]) {
            Some(n) => Some(n),
            None => total_in_items(xs, k + 1),
        }
    }
}

pub open spec fn total_in_members(ms: Seq<(Seq<char>, Json)>, k: int) -> Option<u64>
    decreases ms, ms.len() - k,
{
    if k < 0 || k >= ms.len() {
        None
    } else {
        proof {
            assert(decreases_to!(ms => ms[k]));
        }
        match find_total(ms[k].1) {
            Some(n) => Some(n),
            None => total_in_members(ms, k + 1),
        }
    }
}

fn keyed_total_of(v: &JsonValue, key: &str) -> (r: Option<u64>)
    ensures
        r == (match get(v@, key@) {
            Some(Json::Number(Num::PosInt(n))) => Some(n),
            _ => None,
        }),
{
    match crate::json::member(v, key) {
        Some(x) => {
            proof {
                crate::json::lemma_model(*x);
            }
            crate::json::as_u64(x)
        },
        None => None,
    }
}

fn find_total_in(v: &JsonValue) -> (r: Option<u64>)
    ensures
        r == find_total(v@),
    decreases v,
{
    proof {
        crate::json::lemma_model(*v);
    }
    match v {
        JsonValue::Object(ms) => {
            let ghost mm = members_model(ms@);
            assert(v@ == Json::Object(mm));
            if let Some(n) = keyed_total_of(v, "totalItems") {
                return Some(n);
            }
            if let Some(n) = keyed_total_of(v, "total") {
                return Some(n);
            }
            if let Some(n) = keyed_total_of(v, "totalCount") {
                return Some(n);
            }
            let mut k: usize = 0;
            while k < ms.len()
                invariant
                    k <= ms.len(),
                    *v == JsonValue::Object(*ms),
                    mm == members_model(ms@),
                    find_total(v@) == total_in_members(mm, k as int),
                decreases ms.len() - k,
            {
                proof {
                    assert(decreases_to!(*v => (*v)->Object_0));
                    assert(decreases_to!(*ms => ms@));
                    assert(decreases_to!(ms@ => ms@[k as int]));
                    assert(decreases_to!(ms@[k as int] => ms@[k as int].1));
                }
                let found = find_total_in(&ms[k].1);
                if found.is_some() {
                    return found;
                }
                k += 1;
            }
            None
        },
        JsonValue::Array(xs) => {
            let ghost mx = models(xs@);
            assert(v@ == Json::Array(mx));
            let mut k: usize = 0;
            while k < xs.len()
                invariant
                    k <= xs.len(),
                    *v == JsonValue::Array(*xs),
                    mx == models(xs@),
                    find_total(v@) == total_in_items(mx, k as int),
                decreases xs.len() - k,
            {
                proof {
                    assert(decreases_to!(*v => (*v)->Array_0));
                    assert(decreases_to!(*xs => xs@));
                    assert(decreases_to!(xs@ => xs@[k as int]));
                }
                let found = find_total_in(&xs[k]);
                if found.is_some() {
                    return found;
                }
                k += 1;
            }
            None
        },
        _ => None,
    }
}

/// The total number of rows a response states, where `usize` holds it.
pub fn extract_total_items(value: &JsonValue) -> (r: Option<usize>)
    ensures
        r == (match find_total(value@) {
            Some(n) => if n <= usize::MAX {
                Some(n as usize)
            } else {
                None
            },
            None => None,
        }),
{
    match find_total_in(value) {
        Some(n) => if n <= usize::MAX as u64 {
            Some(n as usize)
        } else {
            None
        },
        None => None,
    }
}

} // verus!

verus! {

/// The text a value is searched as: a string's own characters, any other
/// value's JSON text.
pub open spec fn haystack(j: Json) -> Seq<char> {
    match j {
        Json::Str(s) => s,
        _ => crate::json::json_text(j),
    }
}

/// A row has `field`, and its text holds `needle`, ignoring case.
pub open spec fn contains_filter(row: Seq<(Seq<char>, Json)>, field: Seq<char>, needle: Seq<char>) -> bool {
    match lookup(row, field) {
        Some(v) => crate::text::contains(
            crate::text::lowercase(haystack(v)),
            crate::text::lowercase(needle),
        ),
        None => false,
    }
}

pub open spec fn contains_match(row: Seq<(Seq<char>, Json)>, filters: Seq<(String, String)>) -> bool {
    forall|i: int|
        0 <= i < filters.len() ==> #[trigger] contains_filter(row, filters[i].0@, filters[i].1@)
}

fn value_contains(v: &JsonValue, needle: &str) -> (r: bool)
    ensures
        r == crate::text::contains(
            crate::text::lowercase(haystack(v@)),
            crate::text::lowercase(needle@),
        ),
{
    proof {
        crate::json::lemma_model(*v);
    }
    let hay = match crate::json::as_str(v) {
        Some(s) => s.clone(),
        None => crate::json::json_string(v),
    };
    let h = crate::text::to_lowercase(hay.as_str());
    let n = crate::text::to_lowercase(needle);
    let hc = crate::text::chars_of(h.as_str());
    let nc = crate::text::chars_of(n.as_str());
    crate::text::contains_chars(hc.as_slice(), nc.as_slice())
}

/// Every `(field, needle)` filter finds its needle in the row's field.
pub fn local_contains_match(row: &Vec<(String, JsonValue)>, filters: &Vec<(String, String)>) -> (r:
    bool)
    ensures
        r == contains_match(members_model(row@), filters@),
{
    let ghost rm = members_model(row@);
    let mut i: usize = 0;
    while i < filters.len()
        invariant
            i <= filters.len(),
            rm == members_model(row@),
            forall|k: int|
                0 <= k < i ==> #[trigger] contains_filter(rm, filters@[k].0@, filters@[k].1@),
        decreases filters.len() - i,
    {
        let ok = match crate::json::row_member(row, filters[i].0.as_str()) {
            Some(v) => value_contains(v, filters[i].1.as_str()),
            None => false,
        };
        if !ok {
            assert(!contains_filter(rm, filters@[i as int].0@, filters@[i as int].1@));
            return false;
        }
        i += 1;
    }
    true
}

pub open spec fn equals_match(row: Seq<(Seq<char>, Json)>, filters: Seq<(String, JsonValue)>) -> bool {
    forall|i: int|
        0 <= i < filters.len() ==> match #[trigger] lookup(row, filters[i].0@) {
            Some(v) => crate::json::json_eq(v, filters[i].1@),
            None => false,
        }
}

/// Every `(field, expected)` filter finds a value equal to `expected` (as
/// `serde_json` compares values) in the row.
pub fn local_equals_match(row: &Vec<(String, JsonValue)>, filters: &Vec<(String, JsonValue)>) -> (r:
    bool)
    ensures
        r == equals_match(members_model(row@), filters@),
{
    let ghost rm = members_model(row@);
    let mut i: usize = 0;
    while i < filters.len()
        invariant
            i <= filters.len(),
            rm == members_model(row@),
            forall|k: int|
                0 <= k < i ==> match #[trigger] lookup(rm, filters@[k].0@) {
                    Some(v) => crate::json::json_eq(v, filters@[k].1@),
                    None => false,
                },
        decreases filters.len() - i,
    {
        let ok = match crate::json::row_member(row, filters[i].0.as_str()) {
            Some(v) => crate::json::json_equal(v, &filters[i].1),
            None => false,
        };
        if !ok {
            assert(!match lookup(rm, filters@[i as int].0@) {
                Some(v) => crate::json::json_eq(v, filters@[i as int].1@),
                None => false,
            });
            return false;
        }
        i += 1;
    }
    true
}

/// The number of bytes of `s` in UTF-8, or `usize::MAX` where that is more.
pub open spec fn byte_size(s: Seq<char>) -> int {
    let n = crate::checks::utf8_len(s);
    if n <= usize::MAX {
        n as int
    } else {
        usize::MAX as int
    }
}

fn utf8_size(cs: &[char]) -> (n: usize)
    ensures
        n == byte_size(cs@),
{
    let mut j = cs.len();
    let mut total: usize = 0;
    assert(cs@.skip(j as int) =~= Seq::<char>::empty());
    while j > 0
        invariant
            j <= cs.len(),
            total == byte_size(cs@.skip(j as int)),
        decreases j,
    {
        assert(cs@.skip(j - 1).drop_first() =~= cs@.skip(j as int));
        assert(cs@.skip(j - 1)[0] == cs@[j - 1]);
        let w = crate::checks::width_of(cs[j - 1]);
        if total > usize::MAX - w {
            total = usize::MAX;
        } else {
            total = total + w;
        }
        j -= 1;
    }
    assert(cs@.skip(0) =~= cs@);
    total
}

/// The text a summarised response gives as its reason.
pub open spec fn budget_reason() -> Seq<char> {
    "raw response exceeded the CatDesk BI output budget"@
}

/// A response as the query reports it: whole when its JSON text fits in
/// `MAX_RAW_RESPONSE_BYTES`, else a summary of its size and top-level keys.
pub open spec fn bounded(j: Json) -> Json {
    let bytes = byte_size(crate::json::json_text(j));
    if bytes <= MAX_RAW_RESPONSE_BYTES {
        j
    } else {
        let keys: Seq<Json> = match j {
            Json::Object(ms) => Seq::new(ms.len(), |i: int| Json::Str(ms[i].0)),
            _ => Seq::empty(),
        };
        Json::Object(
            seq![
                ("approxBytes"@, Json::Number(Num::PosInt(bytes as u64))),
                ("omitted"@, Json::Bool(true)),
                ("reason"@, Json::Str(budget_reason())),
                ("topLevelKeys"@, Json::Array(keys)),
            ],
        )
    }
}

fn text_value(lit: &str) -> (v: JsonValue)
    ensures
        v@ == Json::Str(lit@),
{
    JsonValue::Str(String::from_str(lit))
}

pub fn bounded_raw(value: JsonValue) -> (r: JsonValue)
    ensures
        r@ == bounded(value@),
{
    let text = crate::json::json_string(&value);
    let cs = crate::text::chars_of(text.as_str());
    let bytes = utf8_size(cs.as_slice());
    if bytes <= MAX_RAW_RESPONSE_BYTES {
        return value;
    }
    proof {
        crate::json::lemma_model(value);
    }
    let mut keys: Vec<JsonValue> = Vec::new();
    match &value {
        JsonValue::Object(ms) => {
            let mut i: usize = 0;
            while i < ms.len()
                invariant
                    i <= ms.len(),
                    keys.len() == i,
                    forall|k: int| 0 <= k < i ==> #[trigger] keys@[k]@ == Json::Str(ms@[k].0@),
                decreases ms.len() - i,
            {
                keys.push(JsonValue::Str(ms[i].0.clone()));
                i += 1;
            }
        },
        _ => {},
    }
    let key_list = JsonValue::Array(keys);
    proof {
        crate::json::lemma_model(key_list);
        let expected: Seq<Json> = match value@ {
            Json::Object(ms) => Seq::new(ms.len(), |i: int| Json::Str(ms[i].0)),
            _ => Seq::empty(),
        };
        assert(key_list@ == Json::Array(expected)) by {
            assert(Seq::new(width(key_list) as nat, |k: int| key_list->Array_0@[k]@) =~= expected);
        }
    }
    let mut ms: Vec<(String, JsonValue)> = Vec::new();
    ms.push((String::from_str("approxBytes"), JsonValue::Number(JsonNumber::PosInt(bytes as u64))));
    ms.push((String::from_str("omitted"), JsonValue::Bool(true)));
    ms.push((String::from_str("reason"), text_value("raw response exceeded the CatDesk BI output budget")));
    ms.push((String::from_str("topLevelKeys"), key_list));
    let r = JsonValue::Object(ms);
    proof {
        crate::json::lemma_model(r);
        assert(members_model(ms@) =~= seq![
            ("approxBytes"@, Json::Number(Num::PosInt(bytes as u64))),
            ("omitted"@, Json::Bool(true)),
            ("reason"@, Json::Str(budget_reason())),
            ("topLevelKeys"@, key_list@),
        ]);
    }
    r
}

pub open spec fn credentials_message() -> Seq<char> {
    "YunZhi session JSON contains an empty credential field"@
}

/// A session is usable when none of its three credentials is blank.
pub fn check_credentials(token: &str, user_id: &str, lease_code: &str) -> (r: Result<(), String>)
    ensures
        r is Ok <==> (trim(token@).len() > 0 && trim(user_id@).len() > 0 && trim(lease_code@).len()
            > 0),
        r is Err ==> r->Err_0@ == credentials_message(),
{
    let t = crate::text::trim_chars(crate::text::chars_of(token).as_slice());
    let u = crate::text::trim_chars(crate::text::chars_of(user_id).as_slice());
    let l = crate::text::trim_chars(crate::text::chars_of(lease_code).as_slice());
    if t.len() == 0 || u.len() == 0 || l.len() == 0 {
        return Err(String::from_str("YunZhi session JSON contains an empty credential field"));
    }
    Ok(())
}

} // verus!

verus! {

// ---------------------------------------------------------------------------
// Queries
// ---------------------------------------------------------------------------

/// A report query as the tool receives it.
#[derive(Debug)]
pub struct Query {
    pub report: String,
    pub begin_date: Option<String>,
    pub end_date: Option<String>,
    pub cinema: Option<String>,
    pub page_size: Option<usize>,
    pub max_rows: Option<usize>,
    /// Members merged into every request body, by key.
    pub extra: Vec<(String, JsonValue)>,
    /// Field and text pairs every returned row must contain.
    pub contains: Vec<(String, String)>,
    /// Field and value pairs every returned row must hold exactly.
    pub equals: Vec<(String, JsonValue)>,
}

pub open spec fn text_opt(o: Option<String>) -> Option<Seq<char>> {
    match o {
        Some(s) => Some(s@),
        None => None,
    }
}

/// The dates a report is asked for: the cinema list takes them as given;
/// every other report needs a begin date, takes the end date to be the
/// begin date when it is missing, and both must be calendar dates.
pub open spec fn dates_for(
    template: TemplateKind,
    begin: Option<Seq<char>>,
    end: Option<Seq<char>>,
) -> Result<(Option<Seq<char>>, Option<Seq<char>>), Seq<char>> {
    if template == TemplateKind::CinemaData {
        Ok((begin, end))
    } else {
        match begin {
            None => Err("begin_date is required for BI report queries"@),
            Some(b) => {
                let e = match end {
                    Some(e) => e,
                    None => b,
                };
                match date_of(b) {
                    Err(m) => Err(m),
                    Ok(_) => match date_of(e) {
                        Err(m) => Err(m),
                        Ok(_) => Ok((Some(b), Some(e))),
                    },
                }
            },
        }
    }
}

pub fn normalize_dates(spec: &ReportSpec, query: &Query) -> (r: Result<
    (Option<String>, Option<String>),
    String,
>)
    ensures
        match dates_for(spec.template, text_opt(query.begin_date), text_opt(query.end_date)) {
            Ok((b, e)) => r is Ok && text_opt(r->Ok_0.0) == b && text_opt(r->Ok_0.1) == e,
            Err(m) => r is Err && r->Err_0@ == m,
        },
{
    if spec.template == TemplateKind::CinemaData {
        return Ok((crate::text::clone_text(&query.begin_date), crate::text::clone_text(&query.end_date)));
    }
    let begin = match &query.begin_date {
        Some(b) => b.as_str(),
        None => return Err(String::from_str("begin_date is required for BI report queries")),
    };
    let end = match &query.end_date {
        Some(e) => e.as_str(),
        None => begin,
    };
    match parse_date(begin) {
        Ok(_) => {},
        Err(m) => return Err(m),
    }
    match parse_date(end) {
        Ok(_) => {},
        Err(m) => return Err(m),
    }
    Ok((Some(String::from_str(begin)), Some(String::from_str(end))))
}

/// What a query settles before its first request.
#[derive(Debug)]
pub struct QueryPlan {
    /// Rows asked for per page, from 1 to 500.
    pub page_size: usize,
    /// Rows reported at most, from 1 to `MAX_MAX_ROWS`.
    pub max_rows: usize,
    pub begin_date: Option<String>,
    pub end_date: Option<String>,
}

pub open spec fn clamped(x: int, lo: int, hi: int) -> int {
    if x < lo {
        lo
    } else if x > hi {
        hi
    } else {
        x
    }
}

pub open spec fn page_size_for(asked: Option<usize>) -> int {
    clamped(
        match asked {
            Some(n) => n as int,
            None => DEFAULT_PAGE_SIZE as int,
        },
        1,
        500,
    )
}

pub open spec fn max_rows_for(asked: Option<usize>) -> int {
    clamped(
        match asked {
            Some(n) => n as int,
            None => DEFAULT_MAX_ROWS as int,
        },
        1,
        MAX_MAX_ROWS as int,
    )
}

pub open spec fn stock_trace_message() -> Seq<char> {
    "stock_trace requires a cinema name so cinemaLinkIds can be resolved"@
}

fn clamp(x: usize, lo: usize, hi: usize) -> (r: usize)
    requires
        lo <= hi,
    ensures
        r == clamped(x as int, lo as int, hi as int),
{
    if x < lo {
        lo
    } else if x > hi {
        hi
    } else {
        x
    }
}

/// Settle page size, row limit and dates; a stock trace also needs a
/// cinema to find the cinemas' ids by.
pub fn plan_query(spec: &ReportSpec, query: &Query) -> (r: Result<QueryPlan, String>)
    ensures
        match dates_for(spec.template, text_opt(query.begin_date), text_opt(query.end_date)) {
            Err(m) => r is Err && r->Err_0@ == m,
            Ok((b, e)) => if spec.template == TemplateKind::StockTrace && query.cinema is None {
                r is Err && r->Err_0@ == stock_trace_message()
            } else {
                &&& r is Ok
                &&& r->Ok_0.page_size == page_size_for(query.page_size)
                &&& r->Ok_0.max_rows == max_rows_for(query.max_rows)
                &&& text_opt(r->Ok_0.begin_date) == b
                &&& text_opt(r->Ok_0.end_date) == e
            },
        },
{
    let page_size = clamp(
        match query.page_size {
            Some(n) => n,
            None => DEFAULT_PAGE_SIZE,
        },
        1,
        500,
    );
    let max_rows = clamp(
        match query.max_rows {
            Some(n) => n,
            None => DEFAULT_MAX_ROWS,
        },
        1,
        MAX_MAX_ROWS,
    );
    let (begin_date, end_date) = normalize_dates(spec, query)?;
    if spec.template == TemplateKind::StockTrace && query.cinema.is_none() {
        return Err(String::from_str("stock_trace requires a cinema name so cinemaLinkIds can be resolved"));
    }
    Ok(QueryPlan { page_size, max_rows, begin_date, end_date })
}

// ---------------------------------------------------------------------------
// Request bodies
// ---------------------------------------------------------------------------

/// The place of `key` among members ordered by key: after every member
/// whose key comes first.
pub open spec fn lower_bound(ms: Seq<(Seq<char>, Json)>, key: Seq<char>) -> int
    decreases ms.len(),
{
    if ms.len() == 0 {
        0
    } else if crate::text::text_lt(ms[0].0, key) {
        1 + lower_bound(ms.drop_first(), key)
    } else {
        0
    }
}

/// `Map::insert` on an object ordered by key: the member of that key gets
/// the new value, or a new member goes in its place.
pub open spec fn insert_member(ms: Seq<(Seq<char>, Json)>, key: Seq<char>, value: Json) -> Seq<
    (Seq<char>, Json),
> {
    let p = lower_bound(ms, key);
    if p < ms.len() && ms[p].0 == key {
        ms.update(p, (key, value))
    } else {
        ms.insert(p, (key, value))
    }
}

/// Insert each of `extra` in turn.
pub open spec fn insert_all(ms: Seq<(Seq<char>, Json)>, extra: Seq<(Seq<char>, Json)>) -> Seq<
    (Seq<char>, Json),
>
    decreases extra.len(),
{
    if extra.len() == 0 {
        ms
    } else {
        let before = insert_all(ms, extra.drop_last());
        insert_member(before, extra.last().0, extra.last().1)
    }
}

proof fn lemma_lower_bound(ms: Seq<(Seq<char>, Json)>, key: Seq<char>, i: int)
    requires
        0 <= i <= ms.len(),
        forall|k: int| 0 <= k < i ==> crate::text::text_lt(#[trigger] ms[k].0, key),
        i < ms.len() ==> !crate::text::text_lt(ms[i].0, key),
    ensures
        lower_bound(ms, key) == i,
    decreases i,
{
    if i > 0 {
        assert forall|k: int| 0 <= k < i - 1 implies crate::text::text_lt(
            #[trigger] ms.drop_first()[k].0,
            key,
        ) by {
            assert(ms.drop_first()[k] == ms[k + 1]);
        }
        if i < ms.len() {
            assert(ms.drop_first()[i - 1] == ms[i]);
        }
        lemma_lower_bound(ms.drop_first(), key, i - 1);
    }
}

/// `Map::insert` on a list of members ordered by key.
pub fn insert_member_into(ms: &mut Vec<(String, JsonValue)>, key: String, value: JsonValue)
    ensures
        members_model(final(ms)@) == insert_member(members_model(old(ms)@), key@, value@),
{
    let ghost before = members_model(ms@);
    let k = crate::text::chars_of(key.as_str());
    let mut p: usize = 0;
    while p < ms.len()
        invariant
            p <= ms.len(),
            k@ == key@,
            before == members_model(ms@),
            forall|j: int| 0 <= j < p ==> crate::text::text_lt(#[trigger] before[j].0, key@),
        ensures
            p <= ms.len(),
            forall|j: int| 0 <= j < p ==> crate::text::text_lt(#[trigger] before[j].0, key@),
            p < ms.len() ==> !crate::text::text_lt(before[p as int].0, key@),
        decreases ms.len() - p,
    {
        let name = crate::text::chars_of(ms[p].0.as_str());
        if !crate::text::less_text(name.as_slice(), k.as_slice()) {
            break;
        }
        p += 1;
    }
    proof {
        lemma_lower_bound(before, key@, p as int);
    }
    let name_eq = if p < ms.len() {
        let name = crate::text::chars_of(ms[p].0.as_str());
        crate::text::same_chars(name.as_slice(), k.as_slice())
    } else {
        false
    };
    let ghost kv = key@;
    let ghost vv = value@;
    if name_eq {
        ms.set(p, (key, value));
        assert(members_model(ms@) =~= before.update(p as int, (kv, vv)));
    } else {
        ms.insert(p, (key, value));
        assert(members_model(ms@) =~= before.insert(p as int, (kv, vv)));
    }
}

} // verus!

verus! {

/// The members every POST body starts with, in the order they are put in,
/// and those its template adds.
pub open spec fn payload_pairs(
    template: TemplateKind,
    begin: Seq<char>,
    end: Seq<char>,
    gmt_begin: Seq<char>,
    gmt_end: Seq<char>,
    page_no: usize,
    page_size: usize,
    ids: Seq<String>,
) -> Seq<(Seq<char>, Json)> {
    let fixed = seq![
        ("pageNo"@, Json::Number(Num::PosInt(page_no as u64))),
        ("pageSize"@, Json::Number(Num::PosInt(page_size as u64))),
        ("beginTime"@, Json::Str(begin)),
        ("endTime"@, Json::Str(end)),
        (
            "gmt"@,
            Json::Array(seq![Json::Str(gmt_begin), Json::Str(gmt_end), Json::Str("YYYY-MM-DD"@)]),
        ),
    ];
    let more: Seq<(Seq<char>, Json)> = if template == TemplateKind::OperatingStatistic {
        seq![("giftCombo"@, Json::Bool(true))]
    } else if template == TemplateKind::StockTrace {
        seq![
            ("statisticsType"@, Json::Str("BY_ITEM"@)),
            ("cinemaLinkIds"@, Json::Array(Seq::new(ids.len(), |i: int| Json::Str(ids[i]@)))),
        ]
    } else {
        Seq::empty()
    };
    fixed + more
}

/// The body of one page's request: none for a GET report; for a POST
/// report the page, the dates (the end date defaulting to the begin date)
/// with their UTC instants, the template's members, and the caller's extra
/// members over them.
pub open spec fn payload_for(
    report: Report,
    begin: Option<Seq<char>>,
    end: Option<Seq<char>>,
    page_no: usize,
    page_size: usize,
    ids: Seq<String>,
    extra: Seq<(Seq<char>, Json)>,
) -> Result<Option<Json>, Seq<char>> {
    if report.method == MethodKind::Get {
        Ok(None)
    } else {
        match begin {
            None => Err("begin_date is required"@),
            Some(b) => {
                let e = match end {
                    Some(e) => e,
                    None => b,
                };
                match china_midnight_text(b) {
                    Err(m) => Err(m),
                    Ok(gb) => match china_midnight_text(e) {
                        Err(m) => Err(m),
                        Ok(ge) => Ok(
                            Some(
                                Json::Object(
                                    insert_all(
                                        Seq::empty(),
                                        payload_pairs(
                                            report.template,
                                            b,
                                            e,
                                            gb,
                                            ge,
                                            page_no,
                                            page_size,
                                            ids,
                                        ) + extra,
                                    ),
                                ),
                            ),
                        ),
                    },
                }
            },
        }
    }
}

fn put(
    ms: &mut Vec<(String, JsonValue)>,
    key: &str,
    value: JsonValue,
    Ghost(pairs): Ghost<Seq<(Seq<char>, Json)>>,
)
    requires
        members_model(old(ms)@) == insert_all(Seq::empty(), pairs),
    ensures
        members_model(final(ms)@) == insert_all(Seq::empty(), pairs.push((key@, value@))),
{
    let ghost v = value@;
    insert_member_into(ms, String::from_str(key), value);
    assert(pairs.push((key@, v)).drop_last() =~= pairs);
}

fn number_value(n: usize) -> (v: JsonValue)
    ensures
        v@ == Json::Number(Num::PosInt(n as u64)),
{
    JsonValue::Number(JsonNumber::PosInt(n as u64))
}

fn string_value(s: &str) -> (v: JsonValue)
    ensures
        v@ == Json::Str(s@),
{
    JsonValue::Str(String::from_str(s))
}

fn strings_value(ids: &Vec<String>) -> (v: JsonValue)
    ensures
        v@ == Json::Array(Seq::new(ids@.len(), |i: int| Json::Str(ids@[i]@))),
{
    let mut out: Vec<JsonValue> = Vec::new();
    let mut i: usize = 0;
    while i < ids.len()
        invariant
            i <= ids.len(),
            out.len() == i,
            forall|k: int| 0 <= k < i ==> #[trigger] out@[k]@ == Json::Str(ids@[k]@),
        decreases ids.len() - i,
    {
        out.push(JsonValue::Str(ids[i].clone()));
        i += 1;
    }
    let v = JsonValue::Array(out);
    proof {
        crate::json::lemma_model(v);
        assert(Seq::new(width(v) as nat, |k: int| v->Array_0@[k]@) =~= Seq::new(
            ids@.len(),
            |k: int| Json::Str(ids@[k]@),
        ));
    }
    v
}

fn base_members(
    template: TemplateKind,
    b: &str,
    e: &str,
    gb: String,
    ge: String,
    page_no: usize,
    page_size: usize,
    cinema_link_ids: &Vec<String>,
) -> (ms: Vec<(String, JsonValue)>)
    ensures
        members_model(ms@) == insert_all(
            Seq::empty(),
            payload_pairs(template, b@, e@, gb@, ge@, page_no, page_size, cinema_link_ids@),
        ),
{
    let ghost pairs = payload_pairs(
        template,
        b@,
        e@,
        gb@,
        ge@,
        page_no,
        page_size,
        cinema_link_ids@,
    );
    let mut ms: Vec<(String, JsonValue)> = Vec::new();
    let ghost done: Seq<(Seq<char>, Json)> = Seq::empty();
    assert(members_model(ms@) =~= insert_all(Seq::empty(), done));
    put(&mut ms, "pageNo", number_value(page_no), Ghost(done));
    proof {
        done = done.push(("pageNo"@, Json::Number(Num::PosInt(page_no as u64))));
    }
    put(&mut ms, "pageSize", number_value(page_size), Ghost(done));
    proof {
        done = done.push(("pageSize"@, Json::Number(Num::PosInt(page_size as u64))));
    }
    put(&mut ms, "beginTime", string_value(b), Ghost(done));
    proof {
        done = done.push(("beginTime"@, Json::Str(b@)));
    }
    put(&mut ms, "endTime", string_value(e), Ghost(done));
    proof {
        done = done.push(("endTime"@, Json::Str(e@)));
    }
    let mut gmt: Vec<JsonValue> = Vec::new();
    gmt.push(JsonValue::Str(gb));
    gmt.push(JsonValue::Str(ge));
    gmt.push(string_value("YYYY-MM-DD"));
    let gmt = JsonValue::Array(gmt);
    proof {
        crate::json::lemma_model(gmt);
        assert(Seq::new(width(gmt) as nat, |k: int| gmt->Array_0@[k]@) =~= seq![
            Json::Str(gb@),
            Json::Str(ge@),
            Json::Str("YYYY-MM-DD"@),
        ]);
    }
    let ghost gmt_model = gmt@;
    put(&mut ms, "gmt", gmt, Ghost(done));
    proof {
        done = done.push(("gmt"@, gmt_model));
    }
    if template == TemplateKind::OperatingStatistic {
        put(&mut ms, "giftCombo", JsonValue::Bool(true), Ghost(done));
        proof {
            done = done.push(("giftCombo"@, Json::Bool(true)));
        }
    } else if template == TemplateKind::StockTrace {
        put(&mut ms, "statisticsType", string_value("BY_ITEM"), Ghost(done));
        proof {
            done = done.push(("statisticsType"@, Json::Str("BY_ITEM"@)));
        }
        let ids = strings_value(cinema_link_ids);
        let ghost ids_model = ids@;
        put(&mut ms, "cinemaLinkIds", ids, Ghost(done));
        proof {
            done = done.push(("cinemaLinkIds"@, ids_model));
        }
    }
    assert(done =~= pairs);
    ms
}

/// The body of one page's request.
pub fn build_payload(
    spec: &ReportSpec,
    begin: Option<&str>,
    end: Option<&str>,
    page_no: usize,
    page_size: usize,
    cinema_link_ids: &Vec<String>,
    extra: &Vec<(String, JsonValue)>,
) -> (r: Result<Option<JsonValue>, String>)
    ensures
        match payload_for(
            spec@,
            match begin {
                Some(b) => Some(b@),
                None => None,
            },
            match end {
                Some(e) => Some(e@),
                None => None,
            },
            page_no,
            page_size,
            cinema_link_ids@,
            members_model(extra@),
        ) {
            Ok(None) => r is Ok && r->Ok_0 is None,
            Ok(Some(j)) => r is Ok && r->Ok_0 is Some && r->Ok_0->0@ == j,
            Err(m) => r is Err && r->Err_0@ == m,
        },
{
    if spec.method == MethodKind::Get {
        return Ok(None);
    }
    let b = match begin {
        Some(b) => b,
        None => return Err(String::from_str("begin_date is required")),
    };
    let e = match end {
        Some(e) => e,
        None => b,
    };
    let gb = china_midnight_as_utc(b)?;
    let ge = china_midnight_as_utc(e)?;
    let ghost pairs = payload_pairs(
        spec.template,
        b@,
        e@,
        gb@,
        ge@,
        page_no,
        page_size,
        cinema_link_ids@,
    );
    let mut ms = base_members(spec.template, b, e, gb, ge, page_no, page_size, cinema_link_ids);
    let ghost em = members_model(extra@);
    let mut i: usize = 0;
    while i < extra.len()
        invariant
            i <= extra.len(),
            em == members_model(extra@),
            members_model(ms@) == insert_all(Seq::empty(), pairs + em.take(i as int)),
        decreases extra.len() - i,
    {
        let value = crate::json::copy_json(&extra[i].1);
        put(&mut ms, extra[i].0.as_str(), value, Ghost(pairs + em.take(i as int)));
        assert((pairs + em.take(i as int)).push((extra@[i as int].0@, extra@[i as int].1@)) =~= pairs
            + em.take(i + 1));
        i += 1;
    }
    assert(em.take(extra.len() as int) =~= em);
    let obj = JsonValue::Object(ms);
    proof {
        crate::json::lemma_model(obj);
    }
    Ok(Some(obj))
}

} // verus!

verus! {

// ---------------------------------------------------------------------------
// Cinemas
// ---------------------------------------------------------------------------

/// A row whose `cinemaName` holds `needle` (both taken in lower case).
pub open spec fn name_matches(row: Seq<(Seq<char>, Json)>, needle: Seq<char>) -> bool {
    match lookup(row, "cinemaName"@) {
        Some(Json::Str(name)) => crate::text::contains(crate::text::lowercase(name), needle),
        _ => false,
    }
}

/// A row's `cinemaLinkId`, a string taken as it is and a number as its
/// JSON text.
pub open spec fn row_link_id(row: Seq<(Seq<char>, Json)>) -> Option<Seq<char>> {
    match lookup(row, "cinemaLinkId"@) {
        Some(Json::Str(s)) => Some(s),
        Some(Json::Number(n)) => Some(crate::json::json_text(Json::Number(n))),
        _ => None,
    }
}

/// The ids of the rows whose cinema name matches, in row order.
pub open spec fn link_ids(rows: Seq<Seq<(Seq<char>, Json)>>, needle: Seq<char>) -> Seq<Seq<char>>
    decreases rows.len(),
{
    if rows.len() == 0 {
        Seq::empty()
    } else {
        let r = link_ids(rows.drop_last(), needle);
        if name_matches(rows.last(), needle) {
            match row_link_id(rows.last()) {
                Some(id) => r.push(id),
                None => r,
            }
        } else {
            r
        }
    }
}

pub open spec fn no_row_list_message() -> Seq<char> {
    "Cinema list response did not contain a row list"@
}

pub open spec fn no_cinema_message(cinema: Seq<char>) -> Seq<char> {
    "No cinemaLinkId matched cinema name '"@ + cinema + "'"@
}

fn matching_name(row: &Vec<(String, JsonValue)>, needle: &Vec<char>) -> (r: bool)
    ensures
        r == name_matches(members_model(row@), needle@),
{
    match crate::json::row_member(row, "cinemaName") {
        Some(v) => {
            proof {
                crate::json::lemma_model(*v);
            }
            match crate::json::as_str(v) {
                Some(name) => {
                    let lower = crate::text::to_lowercase(name.as_str());
                    let lc = crate::text::chars_of(lower.as_str());
                    crate::text::contains_chars(lc.as_slice(), needle.as_slice())
                },
                None => false,
            }
        },
        None => false,
    }
}

fn link_id_of(row: &Vec<(String, JsonValue)>) -> (r: Option<String>)
    ensures
        match r {
            Some(s) => row_link_id(members_model(row@)) == Some(s@),
            None => row_link_id(members_model(row@)) is None,
        },
{
    match crate::json::row_member(row, "cinemaLinkId") {
        Some(v) => {
            proof {
                crate::json::lemma_model(*v);
            }
            match v {
                JsonValue::Str(s) => Some(s.clone()),
                JsonValue::Number(_) => Some(crate::json::json_string(v)),
                _ => None,
            }
        },
        None => None,
    }
}

/// The link ids of the cinemas whose name holds `cinema` (ignoring case),
/// read from the cinema list: in order and each once.
pub fn cinema_link_ids(response: &JsonValue, cinema: &str) -> (r: Result<Vec<String>, String>)
    ensures
        match api_verdict(response@) {
            Err(e) => r is Err && r->Err_0@ == e,
            Ok(_) => match find_rows(response@) {
                None => r is Err && r->Err_0@ == no_row_list_message(),
                Some(items) => {
                    let ids = link_ids(object_rows(items), crate::text::lowercase(cinema@));
                    if ids.len() == 0 {
                        r is Err && r->Err_0@ == no_cinema_message(cinema@)
                    } else {
                        &&& r is Ok
                        &&& crate::text::strictly_sorted(crate::text::texts(r->Ok_0@))
                        &&& forall|y: Seq<char>|
                            crate::text::texts(r->Ok_0@).contains(y) <==> ids.contains(y)
                    }
                },
            },
        },
{
    ensure_api_success(response)?;
    let rows = match extract_rows(response) {
        Some(rows) => rows,
        None => return Err(String::from_str("Cinema list response did not contain a row list")),
    };
    let lower = crate::text::to_lowercase(cinema);
    let needle = crate::text::chars_of(lower.as_str());
    let ghost rm = rows_model(rows@);
    let mut out: Vec<String> = Vec::new();
    let mut i: usize = 0;
    assert(rm.take(0) =~= Seq::<Seq<(Seq<char>, Json)>>::empty());
    while i < rows.len()
        invariant
            i <= rows.len(),
            rm == rows_model(rows@),
            needle@ == crate::text::lowercase(cinema@),
            crate::text::strictly_sorted(crate::text::texts(out@)),
            forall|y: Seq<char>|
                crate::text::texts(out@).contains(y) <==> link_ids(rm.take(i as int), needle@).contains(
                    y,
                ),
        decreases rows.len() - i,
    {
        let ghost before = link_ids(rm.take(i as int), needle@);
        assert(rm.take(i + 1).drop_last() =~= rm.take(i as int));
        assert(rm.take(i + 1).last() == members_model(rows@[i as int]@));
        if matching_name(&rows[i], &needle) {
            match link_id_of(&rows[i]) {
                Some(id) => {
                    let ghost idv = id@;
                    crate::text::insert_sorted(&mut out, id);
                    assert(link_ids(rm.take(i + 1), needle@) == before.push(idv));
                    assert forall|y: Seq<char>|
                        crate::text::texts(out@).contains(y) <==> before.push(idv).contains(y) by {
                        if before.push(idv).contains(y) {
                            let k = choose|k: int| 0 <= k < before.len() + 1 && before.push(idv)[k] == y;
                            if k < before.len() {
                                assert(before[k] == y);
                                assert(before.contains(y));
                            }
                        }
                        if before.contains(y) {
                            let k = choose|k: int| 0 <= k < before.len() && before[k] == y;
                            assert(before.push(idv)[k] == y);
                        }
                        if y == idv {
                            assert(before.push(idv)[before.len() as int] == y);
                        }
                    }
                },
                None => {},
            }
        }
        i += 1;
    }
    assert(rm.take(rows.len() as int) =~= rm);
    let ghost ids = link_ids(rm, needle@);
    if out.len() == 0 {
        proof {
            if ids.len() > 0 {
                assert(ids.contains(ids[0]));
                assert(crate::text::texts(out@).contains(ids[0]));
            }
        }
        let mut m = String::from_str("No cinemaLinkId matched cinema name '");
        m.append(cinema);
        m.append("'");
        return Err(m);
    }
    proof {
        let t = crate::text::texts(out@);
        assert(t.contains(t[0]));
    }
    Ok(out)
}

} // verus!

verus! {

// ---------------------------------------------------------------------------
// Pages
// ---------------------------------------------------------------------------

/// The rows a query has gathered so far, page by page.
#[derive(Debug)]
pub struct Pages {
    pub rows: Vec<Vec<(String, JsonValue)>>,
    /// The page asked for next.
    pub page_no: usize,
    /// The first response, reported when no rows come back.
    pub first_response: Option<JsonValue>,
    /// The first total a response stated.
    pub reported_total: Option<usize>,
}

pub struct PagesView {
    pub rows: Seq<Seq<(Seq<char>, Json)>>,
    pub page_no: usize,
    pub first_response: Option<Json>,
    pub reported_total: Option<usize>,
}

impl View for Pages {
    type V = PagesView;

    open spec fn view(&self) -> PagesView {
        PagesView {
            rows: rows_model(self.rows@),
            page_no: self.page_no,
            first_response: match self.first_response {
                Some(j) => Some(j@),
                None => None,
            },
            reported_total: self.reported_total,
        }
    }
}

/// Before the first page: no rows, page 1.
pub fn new_pages() -> (p: Pages)
    ensures
        p@ == (PagesView {
            rows: Seq::empty(),
            page_no: 1,
            first_response: None,
            reported_total: None,
        }),
{
    let p = Pages { rows: Vec::new(), page_no: 1, first_response: None, reported_total: None };
    assert(p@.rows =~= Seq::empty());
    p
}

pub open spec fn total_of(j: Json) -> Option<usize> {
    match find_total(j) {
        Some(n) => if n <= usize::MAX {
            Some(n as usize)
        } else {
            None
        },
        None => None,
    }
}

/// What one successful response does to the gathered rows, and whether
/// another page is to be asked for. A response without a row list ends the
/// query; so do an empty page, the page limit, reaching the stated total,
/// or (with no total stated) a page shorter than asked for.
pub open spec fn next_pages(p: PagesView, resp: Json, page_size: usize) -> (PagesView, bool) {
    let first = match p.first_response {
        Some(f) => Some(f),
        None => Some(resp),
    };
    match find_rows(resp) {
        None => (PagesView { first_response: first, ..p }, false),
        Some(items) => {
            let total = match p.reported_total {
                Some(t) => Some(t),
                None => total_of(resp),
            };
            let page = object_rows(items);
            let rows = p.rows + page;
            let stop = page.len() == 0 || p.page_no >= MAX_PAGES || match total {
                Some(t) => rows.len() >= t,
                None => page.len() < page_size,
            };
            (
                PagesView {
                    rows,
                    page_no: if stop {
                        p.page_no
                    } else {
                        (p.page_no + 1) as usize
                    },
                    first_response: first,
                    reported_total: total,
                },
                !stop,
            )
        },
    }
}

/// Take in one page's response. An error the response reports ends the
/// query; otherwise the result says whether to ask for `page_no` next.
pub fn take_page(pages: &mut Pages, response: JsonValue, page_size: usize) -> (r: Result<
    bool,
    String,
>)
    ensures
        match api_verdict(response@) {
            Err(e) => r is Err && r->Err_0@ == e && final(pages)@ == old(pages)@,
            Ok(_) => r == Ok::<bool, String>(next_pages(old(pages)@, response@, page_size).1)
                && final(pages)@ == next_pages(old(pages)@, response@, page_size).0,
        },
{
    ensure_api_success(&response)?;
    if pages.first_response.is_none() {
        pages.first_response = Some(crate::json::copy_json(&response));
    }
    let rows = match extract_rows(&response) {
        Some(rows) => rows,
        None => return Ok(false),
    };
    if pages.reported_total.is_none() {
        pages.reported_total = extract_total_items(&response);
    }
    let page_count = rows.len();
    let ghost before = pages.rows@;
    let mut rows = rows;
    pages.rows.append(&mut rows);
    assert(rows_model(pages.rows@) =~= rows_model(before) + object_rows(
        find_rows(response@)->0,
    ));
    if page_count == 0 || pages.page_no >= MAX_PAGES {
        return Ok(false);
    }
    match pages.reported_total {
        Some(total) => if pages.rows.len() >= total {
            return Ok(false);
        },
        None => if page_count < page_size {
            return Ok(false);
        },
    }
    pages.page_no = pages.page_no + 1;
    Ok(true)
}

} // verus!

verus! {

// ---------------------------------------------------------------------------
// Results
// ---------------------------------------------------------------------------

/// The rows whose cinema name holds `needle`.
pub open spec fn keep_cinema(rows: Seq<Seq<(Seq<char>, Json)>>, needle: Seq<char>) -> Seq<
    Seq<(Seq<char>, Json)>,
>
    decreases rows.len(),
{
    if rows.len() == 0 {
        rows
    } else {
        let r = keep_cinema(rows.drop_last(), needle);
        if name_matches(rows.last(), needle) {
            r.push(rows.last())
        } else {
            r
        }
    }
}

/// The rows that meet every `contains` filter.
pub open spec fn keep_containing(rows: Seq<Seq<(Seq<char>, Json)>>, filters: Seq<(String, String)>) -> Seq<
    Seq<(Seq<char>, Json)>,
>
    decreases rows.len(),
{
    if rows.len() == 0 {
        rows
    } else {
        let r = keep_containing(rows.drop_last(), filters);
        if contains_match(rows.last(), filters) {
            r.push(rows.last())
        } else {
            r
        }
    }
}

/// The rows that meet every `equals` filter.
pub open spec fn keep_equal(rows: Seq<Seq<(Seq<char>, Json)>>, filters: Seq<(String, JsonValue)>) -> Seq<
    Seq<(Seq<char>, Json)>,
>
    decreases rows.len(),
{
    if rows.len() == 0 {
        rows
    } else {
        let r = keep_equal(rows.drop_last(), filters);
        if equals_match(rows.last(), filters) {
            r.push(rows.last())
        } else {
            r
        }
    }
}

pub open spec fn text_or_null(o: Option<Seq<char>>) -> Json {
    match o {
        Some(s) => Json::Str(s),
        None => Json::Null,
    }
}

pub open spec fn some_row_names_a_cinema(rows: Seq<Seq<(Seq<char>, Json)>>) -> bool {
    exists|i: int| 0 <= i < rows.len() && (#[trigger] lookup(rows[i], "cinemaName"@)) is Some
}

/// Whether the cinema filter applies: a cinema was asked for and some row
/// names one.
pub open spec fn cinema_filter_applies(query: Query, rows: Seq<Seq<(Seq<char>, Json)>>) -> bool {
    query.cinema is Some && some_row_names_a_cinema(rows)
}

/// The rows that pass the local filters: the cinema (unless the report is a
/// stock trace, which asked for its cinemas already), then `contains`, then
/// `equals`.
pub open spec fn filtered_rows(query: Query, report: Report, rows: Seq<Seq<(Seq<char>, Json)>>) -> Seq<
    Seq<(Seq<char>, Json)>,
> {
    let by_cinema = if cinema_filter_applies(query, rows) && report.template
        != TemplateKind::StockTrace {
        keep_cinema(rows, crate::text::lowercase(query.cinema->0@))
    } else {
        rows
    };
    keep_equal(keep_containing(by_cinema, query.contains@), query.equals@)
}

pub open spec fn rows_json(rows: Seq<Seq<(Seq<char>, Json)>>) -> Json {
    Json::Array(Seq::new(rows.len(), |i: int| Json::Object(rows[i])))
}

/// What a query reports. With rows: the rows left after the local filters
/// (at most `max_rows` of them) and the counts around them. Without rows:
/// the first response, bounded in size, so that the caller sees why.
pub open spec fn query_result(query: Query, report: Report, plan: QueryPlan, pages: PagesView) -> Json {
    if pages.rows.len() > 0 {
        let kept = filtered_rows(query, report, pages.rows);
        let shown = if kept.len() > plan.max_rows {
            kept.take(plan.max_rows as int)
        } else {
            kept
        };
        Json::Object(
            seq![
                ("beginDate"@, text_or_null(text_opt(plan.begin_date))),
                ("cinema"@, text_or_null(text_opt(query.cinema))),
                ("cinemaFilterApplied"@, Json::Bool(cinema_filter_applies(query, pages.rows))),
                ("endDate"@, text_or_null(text_opt(plan.end_date))),
                ("path"@, Json::Str(report.path)),
                ("report"@, Json::Str(query.report@)),
                ("rows"@, rows_json(shown)),
                ("rowsBeforeLocalFilters"@, Json::Number(Num::PosInt(pages.rows.len() as u64))),
                ("success"@, Json::Bool(true)),
                (
                    "totalItems"@,
                    match pages.reported_total {
                        Some(t) => Json::Number(Num::PosInt(t as u64)),
                        None => Json::Null,
                    },
                ),
                ("totalMatched"@, Json::Number(Num::PosInt(kept.len() as u64))),
                ("truncated"@, Json::Bool(kept.len() > plan.max_rows)),
                ("verifiedTemplate"@, Json::Bool(report.verified)),
            ],
        )
    } else {
        let raw = match pages.first_response {
            Some(j) => j,
            None => Json::Object(Seq::empty()),
        };
        Json::Object(
            seq![
                ("beginDate"@, text_or_null(text_opt(plan.begin_date))),
                ("cinema"@, text_or_null(text_opt(query.cinema))),
                ("endDate"@, text_or_null(text_opt(plan.end_date))),
                ("path"@, Json::Str(report.path)),
                ("raw"@, bounded(raw)),
                ("report"@, Json::Str(query.report@)),
                ("rows"@, Json::Array(Seq::empty())),
                ("success"@, Json::Bool(true)),
                ("verifiedTemplate"@, Json::Bool(report.verified)),
            ],
        )
    }
}

fn any_cinema_name(rows: &Vec<Vec<(String, JsonValue)>>) -> (r: bool)
    ensures
        r == some_row_names_a_cinema(rows_model(rows@)),
{
    let ghost rm = rows_model(rows@);
    let mut i: usize = 0;
    while i < rows.len()
        invariant
            i <= rows.len(),
            rm == rows_model(rows@),
            forall|k: int| 0 <= k < i ==> (#[trigger] lookup(rm[k], "cinemaName"@)) is None,
        decreases rows.len() - i,
    {
        if crate::json::find_member(&rows[i], "cinemaName").is_some() {
            assert((lookup(rm[i as int], "cinemaName"@)) is Some);
            return true;
        }
        i += 1;
    }
    false
}

/// Which of the three local filters a pass applies.
enum RowFilter<'a> {
    Cinema(&'a Vec<char>),
    Contains(&'a Vec<(String, String)>),
    Equals(&'a Vec<(String, JsonValue)>),
}

spec fn kept_by(f: RowFilter, rows: Seq<Seq<(Seq<char>, Json)>>) -> Seq<Seq<(Seq<char>, Json)>> {
    match f {
        RowFilter::Cinema(needle) => keep_cinema(rows, needle@),
        RowFilter::Contains(filters) => keep_containing(rows, filters@),
        RowFilter::Equals(filters) => keep_equal(rows, filters@),
    }
}

fn keep_rows(rows: &Vec<Vec<(String, JsonValue)>>, f: RowFilter) -> (r: Vec<Vec<(String, JsonValue)>>)
    ensures
        rows_model(r@) == kept_by(f, rows_model(rows@)),
{
    let ghost rm = rows_model(rows@);
    let mut out: Vec<Vec<(String, JsonValue)>> = Vec::new();
    let mut i: usize = 0;
    assert(rm.take(0) =~= Seq::<Seq<(Seq<char>, Json)>>::empty());
    while i < rows.len()
        invariant
            i <= rows.len(),
            rm == rows_model(rows@),
            rows_model(out@) == kept_by(f, rm.take(i as int)),
        decreases rows.len() - i,
    {
        assert(rm.take(i + 1).drop_last() =~= rm.take(i as int));
        assert(rm.take(i + 1).last() == members_model(rows@[i as int]@));
        let keep = match f {
            RowFilter::Cinema(needle) => matching_name(&rows[i], needle),
            RowFilter::Contains(filters) => local_contains_match(&rows[i], filters),
            RowFilter::Equals(filters) => local_equals_match(&rows[i], filters),
        };
        if keep {
            let ghost before = out@;
            out.push(crate::json::copy_members(&rows[i]));
            assert(rows_model(out@) =~= rows_model(before).push(members_model(rows@[i as int]@)));
        }
        i += 1;
    }
    assert(rm.take(rows.len() as int) =~= rm);
    out
}

fn text_or_null_value(o: &Option<String>) -> (v: JsonValue)
    ensures
        v@ == text_or_null(text_opt(*o)),
{
    match o {
        Some(s) => JsonValue::Str(s.clone()),
        None => JsonValue::Null,
    }
}

fn rows_value(rows: Vec<Vec<(String, JsonValue)>>) -> (v: JsonValue)
    ensures
        v@ == rows_json(rows_model(rows@)),
{
    let mut items: Vec<JsonValue> = Vec::new();
    let mut i: usize = 0;
    while i < rows.len()
        invariant
            i <= rows.len(),
            items.len() == i,
            forall|k: int|
                0 <= k < i ==> #[trigger] items@[k]@ == Json::Object(members_model(rows@[k]@)),
        decreases rows.len() - i,
    {
        let obj = JsonValue::Object(crate::json::copy_members(&rows[i]));
        proof {
            crate::json::lemma_model(obj);
        }
        items.push(obj);
        i += 1;
    }
    let v = JsonValue::Array(items);
    proof {
        crate::json::lemma_model(v);
        assert(Seq::new(width(v) as nat, |k: int| v->Array_0@[k]@) =~= Seq::new(
            rows_model(rows@).len(),
            |k: int| Json::Object(rows_model(rows@)[k]),
        ));
    }
    v
}

fn member_pair(key: &str, value: JsonValue) -> (m: (String, JsonValue))
    ensures
        m.0@ == key@,
        m.1@ == value@,
{
    (String::from_str(key), value)
}

/// The report a query gives once its pages are in.
pub fn finish_query(query: &Query, spec: &ReportSpec, plan: &QueryPlan, pages: Pages) -> (r:
    JsonValue)
    ensures
        r@ == query_result(*query, spec@, *plan, pages@),
{
    let ghost pv = pages@;
    let mut ms: Vec<(String, JsonValue)> = Vec::new();
    if pages.rows.len() > 0 {
        let before_local_filters = pages.rows.len();
        let applied = query.cinema.is_some() && any_cinema_name(&pages.rows);
        let mut rows = pages.rows;
        if applied && spec.template != TemplateKind::StockTrace {
            match &query.cinema {
                Some(cinema) => {
                    let lower = crate::text::to_lowercase(cinema.as_str());
                    let needle = crate::text::chars_of(lower.as_str());
                    rows = keep_rows(&rows, RowFilter::Cinema(&needle));
                },
                None => {},
            }
        }
        rows = keep_rows(&rows, RowFilter::Contains(&query.contains));
        rows = keep_rows(&rows, RowFilter::Equals(&query.equals));
        let total_matched = rows.len();
        let truncated = total_matched > plan.max_rows;
        let ghost kept = rows_model(rows@);
        rows.truncate(plan.max_rows);
        proof {
            if truncated {
                assert(rows_model(rows@) =~= kept.take(plan.max_rows as int));
            } else {
                assert(rows_model(rows@) =~= kept);
            }
            assert(kept == filtered_rows(*query, spec@, pv.rows));
        }
        ms.push(member_pair("beginDate", text_or_null_value(&plan.begin_date)));
        ms.push(member_pair("cinema", text_or_null_value(&query.cinema)));
        ms.push(member_pair("cinemaFilterApplied", JsonValue::Bool(applied)));
        ms.push(member_pair("endDate", text_or_null_value(&plan.end_date)));
        ms.push(member_pair("path", JsonValue::Str(spec.path.clone())));
        ms.push(member_pair("report", JsonValue::Str(query.report.clone())));
        ms.push(member_pair("rows", rows_value(rows)));
        ms.push(member_pair("rowsBeforeLocalFilters", number_value(before_local_filters)));
        ms.push(member_pair("success", JsonValue::Bool(true)));
        let total = match pages.reported_total {
            Some(t) => number_value(t),
            None => JsonValue::Null,
        };
        ms.push(member_pair("totalItems", total));
        ms.push(member_pair("totalMatched", number_value(total_matched)));
        ms.push(member_pair("truncated", JsonValue::Bool(truncated)));
        ms.push(member_pair("verifiedTemplate", JsonValue::Bool(spec.verified)));
        let r = JsonValue::Object(ms);
        proof {
            crate::json::lemma_model(r);
            assert(members_model(r->Object_0@) =~= query_result(*query, spec@, *plan, pv)->Object_0);
        }
        r
    } else {
        let raw = match pages.first_response {
            Some(j) => j,
            None => {
                let e = JsonValue::Object(Vec::new());
                proof {
                    crate::json::lemma_model(e);
                    assert(members_model(e->Object_0@) =~= Seq::empty());
                }
                e
            },
        };
        ms.push(member_pair("beginDate", text_or_null_value(&plan.begin_date)));
        ms.push(member_pair("cinema", text_or_null_value(&query.cinema)));
        ms.push(member_pair("endDate", text_or_null_value(&plan.end_date)));
        ms.push(member_pair("path", JsonValue::Str(spec.path.clone())));
        ms.push(member_pair("raw", bounded_raw(raw)));
        ms.push(member_pair("report", JsonValue::Str(query.report.clone())));
        let empty = JsonValue::Array(Vec::new());
        proof {
            crate::json::lemma_model(empty);
            assert(Seq::new(width(empty) as nat, |k: int| empty->Array_0@[k]@) =~= Seq::<
                Json,
            >::empty());
        }
        ms.push(member_pair("rows", empty));
        ms.push(member_pair("success", JsonValue::Bool(true)));
        ms.push(member_pair("verifiedTemplate", JsonValue::Bool(spec.verified)));
        let r = JsonValue::Object(ms);
        proof {
            crate::json::lemma_model(r);
            assert(members_model(r->Object_0@) =~= query_result(*query, spec@, *plan, pv)->Object_0);
        }
        r
    }
}

} // verus!

verus! {

// ---------------------------------------------------------------------------
// Laws
// ---------------------------------------------------------------------------

/// Each key comes before the next, so none occurs twice: how an object
/// keeps its members.
pub open spec fn keys_sorted(ms: Seq<(Seq<char>, Json)>) -> bool {
    forall|i: int, j: int|
        0 <= i < j < ms.len() ==> crate::text::text_lt(#[trigger] ms[i].0, #[trigger] ms[j].0)
}

proof fn lemma_lookup_first(ms: Seq<(Seq<char>, Json)>, k: Seq<char>, i: int)
    requires
        0 <= i < ms.len(),
        ms[i].0 == k,
        forall|j: int| 0 <= j < i ==> #[trigger] ms[j].0 != k,
    ensures
        lookup(ms, k) == Some(ms[i].1),
    decreases i,
{
    if i > 0 {
        assert forall|j: int| 0 <= j < i - 1 implies #[trigger] ms.drop_first()[j].0 != k by {
            assert(ms.drop_first()[j] == ms[j + 1]);
        }
        lemma_lookup_first(ms.drop_first(), k, i - 1);
    }
}

proof fn lemma_lookup_none(ms: Seq<(Seq<char>, Json)>, k: Seq<char>)
    requires
        forall|j: int| 0 <= j < ms.len() ==> #[trigger] ms[j].0 != k,
    ensures
        lookup(ms, k) is None,
    decreases ms.len(),
{
    if ms.len() > 0 {
        assert(ms[0].0 != k);
        assert forall|j: int| 0 <= j < ms.len() - 1 implies #[trigger] ms.drop_first()[j].0 != k by {
            assert(ms.drop_first()[j] == ms[j + 1]);
        }
        lemma_lookup_none(ms.drop_first(), k);
    }
}

/// Two member lists whose keys sit at matching places give the same
/// lookups: `b` holds `a`'s members in order, with `a`'s `i`th at `f(i)`,
/// and any other member of `b` has a key other than `k`.
proof fn lemma_lookup_same(a: Seq<(Seq<char>, Json)>, b: Seq<(Seq<char>, Json)>, k: Seq<char>, shift: int)
    requires
        0 <= shift <= a.len(),
        b.len() == a.len() + 1,
        forall|i: int| 0 <= i < shift ==> #[trigger] b[i] == a[i],
        forall|i: int| shift < i < b.len() ==> #[trigger] b[i] == a[i - 1],
        b[shift].0 != k,
    ensures
        lookup(b, k) == lookup(a, k),
{
    if exists|i: int| 0 <= i < a.len() && a[i].0 == k {
        let i = choose|i: int| 0 <= i < a.len() && a[i].0 == k && forall|j: int|
            0 <= j < i ==> #[trigger] a[j].0 != k;
        assert(exists|i: int| 0 <= i < a.len() && a[i].0 == k && forall|j: int|
            0 <= j < i ==> #[trigger] a[j].0 != k) by {
            lemma_first_key(a, k);
        }
        lemma_lookup_first(a, k, i);
        if i < shift {
            assert(b[i] == a[i]);
            assert forall|j: int| 0 <= j < i implies #[trigger] b[j].0 != k by {
                assert(b[j] == a[j]);
            }
            lemma_lookup_first(b, k, i);
        } else {
            assert(b[i + 1] == a[i]);
            assert forall|j: int| 0 <= j < i + 1 implies #[trigger] b[j].0 != k by {
                if j < shift {
                    assert(b[j] == a[j]);
                } else if j > shift {
                    assert(b[j] == a[j - 1]);
                }
            }
            lemma_lookup_first(b, k, i + 1);
        }
    } else {
        lemma_lookup_none(a, k);
        assert forall|j: int| 0 <= j < b.len() implies #[trigger] b[j].0 != k by {
            if j < shift {
                assert(b[j] == a[j]);
            } else if j > shift {
                assert(b[j] == a[j - 1]);
            }
        }
        lemma_lookup_none(b, k);
    }
}

proof fn lemma_first_key(a: Seq<(Seq<char>, Json)>, k: Seq<char>)
    requires
        exists|i: int| 0 <= i < a.len() && a[i].0 == k,
    ensures
        exists|i: int|
            0 <= i < a.len() && a[i].0 == k && forall|j: int| 0 <= j < i ==> #[trigger] a[j].0 != k,
    decreases a.len(),
{
    if a[0].0 == k {
        assert(forall|j: int| 0 <= j < 0 ==> #[trigger] a[j].0 != k);
    } else {
        let w = choose|i: int| 0 <= i < a.len() && a[i].0 == k;
        assert(a.drop_first()[w - 1] == a[w]);
        lemma_first_key(a.drop_first(), k);
        let i = choose|i: int|
            0 <= i < a.drop_first().len() && a.drop_first()[i].0 == k && forall|j: int|
                0 <= j < i ==> #[trigger] a.drop_first()[j].0 != k;
        assert forall|j: int| 0 <= j < i + 1 implies #[trigger] a[j].0 != k by {
            if j > 0 {
                assert(a[j] == a.drop_first()[j - 1]);
            }
        }
        assert(a[i + 1] == a.drop_first()[i]);
    }
}

proof fn lemma_lower_bound_place(ms: Seq<(Seq<char>, Json)>, key: Seq<char>)
    ensures
        0 <= lower_bound(ms, key) <= ms.len(),
        forall|j: int| 0 <= j < lower_bound(ms, key) ==> crate::text::text_lt(#[trigger] ms[j].0, key),
        lower_bound(ms, key) < ms.len() ==> !crate::text::text_lt(ms[lower_bound(ms, key)].0, key),
    decreases ms.len(),
{
    if ms.len() > 0 && crate::text::text_lt(ms[0].0, key) {
        lemma_lower_bound_place(ms.drop_first(), key);
        let p = lower_bound(ms, key);
        assert forall|j: int| 0 <= j < p implies crate::text::text_lt(#[trigger] ms[j].0, key) by {
            if j > 0 {
                assert(ms[j] == ms.drop_first()[j - 1]);
            }
        }
        if p < ms.len() {
            assert(ms[p] == ms.drop_first()[p - 1]);
        }
    }
}

/// Putting a member into an object ordered by key keeps it ordered by key,
/// gives that key the new value, and leaves every other key as it was: the
/// object reads as a map in which the last write wins.
pub proof fn lemma_insert_member(ms: Seq<(Seq<char>, Json)>, key: Seq<char>, value: Json)
    requires
        keys_sorted(ms),
    ensures
        keys_sorted(insert_member(ms, key, value)),
        lookup(insert_member(ms, key, value), key) == Some(value),
        forall|k: Seq<char>|
            k != key ==> #[trigger] lookup(insert_member(ms, key, value), k) == lookup(ms, k),
{
    let p = lower_bound(ms, key);
    lemma_lower_bound_place(ms, key);
    let r = insert_member(ms, key, value);
    assert forall|j: int| 0 <= j < p implies #[trigger] ms[j].0 != key by {
        crate::text::lemma_text_lt_irreflexive(key);
    }
    if p < ms.len() && ms[p].0 == key {
        assert(r == ms.update(p, (key, value)));
        assert forall|i: int, j: int| 0 <= i < j < r.len() implies crate::text::text_lt(
            #[trigger] r[i].0,
            #[trigger] r[j].0,
        ) by {
            assert(r[i].0 == ms[i].0);
            assert(r[j].0 == ms[j].0);
        }
        assert forall|j: int| 0 <= j < p implies #[trigger] r[j].0 != key by {
            assert(r[j] == ms[j]);
        }
        lemma_lookup_first(r, key, p);
        assert forall|k: Seq<char>| k != key implies #[trigger] lookup(r, k) == lookup(ms, k) by {
            if exists|i: int| 0 <= i < ms.len() && ms[i].0 == k {
                lemma_first_key(ms, k);
                let i = choose|i: int|
                    0 <= i < ms.len() && ms[i].0 == k && forall|j: int|
                        0 <= j < i ==> #[trigger] ms[j].0 != k;
                lemma_lookup_first(ms, k, i);
                assert(i != p);
                assert forall|j: int| 0 <= j < i implies #[trigger] r[j].0 != k by {
                    assert(r[j].0 == ms[j].0);
                }
                lemma_lookup_first(r, k, i);
            } else {
                lemma_lookup_none(ms, k);
                assert forall|j: int| 0 <= j < r.len() implies #[trigger] r[j].0 != k by {
                    assert(r[j].0 == ms[j].0);
                }
                lemma_lookup_none(r, k);
            }
        }
    } else {
        assert(r == ms.insert(p, (key, value)));
        if p < ms.len() {
            crate::text::lemma_text_lt_total(ms[p].0, key);
        }
        assert forall|i: int, j: int| 0 <= i < j < r.len() implies crate::text::text_lt(
            #[trigger] r[i].0,
            #[trigger] r[j].0,
        ) by {
            if j < p {
                assert(r[i] == ms[i] && r[j] == ms[j]);
            } else if j == p {
                assert(r[i] == ms[i]);
            } else if i < p {
                assert(r[i] == ms[i] && r[j] == ms[j - 1]);
                if j - 1 > p {
                    assert(crate::text::text_lt(ms[p].0, ms[j - 1].0));
                    crate::text::lemma_text_lt_transitive(key, ms[p].0, ms[j - 1].0);
                }
                crate::text::lemma_text_lt_transitive(ms[i].0, key, ms[j - 1].0);
            } else if i == p {
                assert(r[j] == ms[j - 1]);
                if j - 1 > p {
                    assert(crate::text::text_lt(ms[p].0, ms[j - 1].0));
                    crate::text::lemma_text_lt_transitive(key, ms[p].0, ms[j - 1].0);
                }
            } else {
                assert(r[i] == ms[i - 1] && r[j] == ms[j - 1]);
            }
        }
        assert forall|j: int| 0 <= j < p implies #[trigger] r[j].0 != key by {
            assert(r[j] == ms[j]);
        }
        lemma_lookup_first(r, key, p);
        assert forall|i: int| p < i < r.len() implies #[trigger] r[i] == ms[i - 1] by {}
        assert forall|k: Seq<char>| k != key implies #[trigger] lookup(r, k) == lookup(ms, k) by {
            lemma_lookup_same(ms, r, k, p);
        }
    }
}

/// Putting members in one after another keeps an object ordered by key.
pub proof fn lemma_insert_all_sorted(ms: Seq<(Seq<char>, Json)>, extra: Seq<(Seq<char>, Json)>)
    requires
        keys_sorted(ms),
    ensures
        keys_sorted(insert_all(ms, extra)),
    decreases extra.len(),
{
    if extra.len() > 0 {
        lemma_insert_all_sorted(ms, extra.drop_last());
        lemma_insert_member(insert_all(ms, extra.drop_last()), extra.last().0, extra.last().1);
    }
}

/// A request body's members are ordered by key, each key once, and a
/// caller's extra member that comes last for its key is what the body
/// holds under that key.
pub proof fn lemma_payload_members(pairs: Seq<(Seq<char>, Json)>, extra: Seq<(Seq<char>, Json)>)
    requires
        extra.len() > 0,
    ensures
        keys_sorted(insert_all(Seq::empty(), pairs + extra)),
        lookup(insert_all(Seq::empty(), pairs + extra), extra.last().0) == Some(extra.last().1),
{
    let all = pairs + extra;
    assert(all.last() == extra.last());
    lemma_insert_all_sorted(Seq::empty(), all.drop_last());
    lemma_insert_member(insert_all(Seq::empty(), all.drop_last()), all.last().0, all.last().1);
    lemma_insert_all_sorted(Seq::empty(), all);
}

/// The page asked for never passes `MAX_PAGES`, rows gathered stay at the
/// front, and another page is asked for only with the page number moved on
/// by one.
pub proof fn lemma_pages_advance(p: PagesView, resp: Json, page_size: usize)
    requires
        p.page_no <= MAX_PAGES,
    ensures
        next_pages(p, resp, page_size).0.page_no <= MAX_PAGES,
        next_pages(p, resp, page_size).0.rows.take(p.rows.len() as int) == p.rows,
        next_pages(p, resp, page_size).1 ==> next_pages(p, resp, page_size).0.page_no == p.page_no
            + 1,
        !next_pages(p, resp, page_size).1 ==> next_pages(p, resp, page_size).0.page_no
            == p.page_no,
{
    let n = next_pages(p, resp, page_size).0;
    if find_rows(resp) is Some {
        assert(n.rows.take(p.rows.len() as int) =~= p.rows);
    } else {
        assert(n.rows.take(p.rows.len() as int) =~= p.rows);
    }
}

/// A query reports at most `max_rows` rows, and says it was cut exactly
/// when more rows matched.
pub proof fn lemma_result_within_limit(query: Query, report: Report, plan: QueryPlan, pages: PagesView)
    requires
        pages.rows.len() > 0,
    ensures
        ({
            let kept = filtered_rows(query, report, pages.rows);
            let r = query_result(query, report, plan, pages);
            &&& r is Object
            &&& r->Object_0[6].0 == "rows"@
            &&& r->Object_0[6].1 is Array
            &&& r->Object_0[6].1->Array_0.len() <= plan.max_rows
            &&& r->Object_0[11].1 == Json::Bool(kept.len() > plan.max_rows)
        }),
{
}

} // verus!

verus! {

/// A named report's path is one of its own names, and already trimmed.
proof fn lemma_named_paths_resolve(name: Seq<char>)
    ensures
        named_report_for(name) matches Some(r) ==> named_report_for(r.path) == Some(r) && trim(
            r.path,
        ) == r.path,
{
    reveal_strlit("cinema_data");
    reveal_strlit("cinemaData");
    reveal_strlit("/bi/cinema/data");
    reveal_strlit("operating_statistic");
    reveal_strlit("operatingStatistic");
    reveal_strlit("/bi/marketing/operatingStatistic");
    reveal_strlit("category_group_sale");
    reveal_strlit("categoryGroupSale");
    reveal_strlit("/bi/goods/categoryGroupSale");
    reveal_strlit("stock_trace");
    reveal_strlit("stockTrace");
    reveal_strlit("/bi/goods/stockTrace");
    if let Some(r) = named_report_for(name) {
        let p = r.path;
        assert(p[0] == '/');
        assert(!crate::text::is_white(p[0]));
        assert(!crate::text::is_white(p.last()));
        assert(crate::text::trim_start(p) == p);
        assert(crate::text::trim_end(p) == p);
    }
}

/// What a report name resolves to does not depend on white space around
/// it; a resolved report's path resolves to that same report; the named
/// reports are the verified ones, and only the cinema data is asked for
/// with GET.
pub proof fn lemma_report_resolution(input: Seq<char>)
    ensures
        report_for(input) == report_for(trim(input)),
        report_for(input) matches Some(r) ==> {
            &&& report_for(r.path) == Some(r)
            &&& (r.verified <==> r.template != TemplateKind::GenericDateReport)
            &&& (r.method == MethodKind::Get <==> r.template == TemplateKind::CinemaData)
        },
{
    crate::text::lemma_trim_idempotent(input);
    let name = trim(input);
    lemma_named_paths_resolve(name);
    if let Some(r) = report_for(input) {
        if named_report_for(name) is None {
            assert(r.path == name);
        }
    }
}

} // verus!

verus! {

/// Contains filters are all required: a row matches a list of them exactly
/// when it matches each part of the list, none asks nothing, and one asks
/// that the row has the field and that its text (a string's own, another
/// value's JSON text) holds the needle, both in lower case.
pub proof fn lemma_contains_filters_all_required(
    row: Seq<(Seq<char>, Json)>,
    f1: Seq<(String, String)>,
    f2: Seq<(String, String)>,
    f: (String, String),
)
    ensures
        contains_match(row, f1 + f2) == (contains_match(row, f1) && contains_match(row, f2)),
        contains_match(row, Seq::empty()),
        contains_match(row, seq![f]) == match lookup(row, f.0@) {
            Some(Json::Str(s)) => crate::text::contains(
                crate::text::lowercase(s),
                crate::text::lowercase(f.1@),
            ),
            Some(v) => crate::text::contains(
                crate::text::lowercase(crate::json::json_text(v)),
                crate::text::lowercase(f.1@),
            ),
            None => false,
        },
{
    let all = f1 + f2;
    if contains_match(row, f1) && contains_match(row, f2) {
        assert forall|i: int| 0 <= i < all.len() implies #[trigger] contains_filter(
            row,
            all[i].0@,
            all[i].1@,
        ) by {
            if i < f1.len() {
                assert(all[i] == f1[i]);
            } else {
                assert(all[i] == f2[i - f1.len()]);
            }
        }
    }
    if contains_match(row, all) {
        assert forall|i: int| 0 <= i < f1.len() implies #[trigger] contains_filter(
            row,
            f1[i].0@,
            f1[i].1@,
        ) by {
            assert(all[i] == f1[i]);
        }
        assert forall|i: int| 0 <= i < f2.len() implies #[trigger] contains_filter(
            row,
            f2[i].0@,
            f2[i].1@,
        ) by {
            assert(all[f1.len() + i] == f2[i]);
        }
    }
    let one = seq![f];
    assert(one[0] == f);
    if !contains_match(row, one) {
        assert(!contains_filter(row, one[0].0@, one[0].1@));
    } else {
        assert(contains_filter(row, one[0].0@, one[0].1@));
    }
}

/// Equals filters are all required: a row matches a list of them exactly
/// when it matches each part of the list, none asks nothing, and one asks
/// that the row has the field with a value equal (as `serde_json` compares
/// values) to the one given.
pub proof fn lemma_equals_filters_all_required(
    row: Seq<(Seq<char>, Json)>,
    f1: Seq<(String, JsonValue)>,
    f2: Seq<(String, JsonValue)>,
    f: (String, JsonValue),
)
    ensures
        equals_match(row, f1 + f2) == (equals_match(row, f1) && equals_match(row, f2)),
        equals_match(row, Seq::empty()),
        equals_match(row, seq![f]) == match lookup(row, f.0@) {
            Some(v) => crate::json::json_eq(v, f.1@),
            None => false,
        },
{
    let all = f1 + f2;
    if equals_match(row, f1) && equals_match(row, f2) {
        assert forall|i: int| 0 <= i < all.len() implies match #[trigger] lookup(row, all[i].0@) {
            Some(v) => crate::json::json_eq(v, all[i].1@),
            None => false,
        } by {
            if i < f1.len() {
                assert(all[i] == f1[i]);
                assert(match lookup(row, f1[i].0@) {
                    Some(v) => crate::json::json_eq(v, f1[i].1@),
                    None => false,
                });
            } else {
                assert(all[i] == f2[i - f1.len()]);
                assert(match lookup(row, f2[i - f1.len()].0@) {
                    Some(v) => crate::json::json_eq(v, f2[i - f1.len()].1@),
                    None => false,
                });
            }
        }
    }
    if equals_match(row, all) {
        assert forall|i: int| 0 <= i < f1.len() implies match #[trigger] lookup(row, f1[i].0@) {
            Some(v) => crate::json::json_eq(v, f1[i].1@),
            None => false,
        } by {
            assert(all[i] == f1[i]);
            assert(match lookup(row, all[i].0@) {
                Some(v) => crate::json::json_eq(v, all[i].1@),
                None => false,
            });
        }
        assert forall|i: int| 0 <= i < f2.len() implies match #[trigger] lookup(row, f2[i].0@) {
            Some(v) => crate::json::json_eq(v, f2[i].1@),
            None => false,
        } by {
            assert(all[f1.len() + i] == f2[i]);
            assert(match lookup(row, all[f1.len() + i].0@) {
                Some(v) => crate::json::json_eq(v, all[f1.len() + i].1@),
                None => false,
            });
        }
    }
    let one = seq![f];
    assert(one[0] == f);
    if equals_match(row, one) {
        assert(match lookup(row, one[0].0@) {
            Some(v) => crate::json::json_eq(v, one[0].1@),
            None => false,
        });
    }
    if !equals_match(row, one) {
        assert(!match lookup(row, one[0].0@) {
            Some(v) => crate::json::json_eq(v, one[0].1@),
            None => false,
        });
    }
}

} // verus!
