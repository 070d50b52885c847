use catdesk::calendar::CalendarDate;
use catdesk::iyunzhi::{
    bounded_raw, build_payload, check_credentials, china_midnight_as_utc, cinema_link_ids,
    ensure_api_success, extract_rows, extract_total_items, finish_query, http_failure,
    local_contains_match, local_equals_match, new_pages, non_json_failure, normalize_dates,
    parse_date, plan_query, report_or_error, resolve_report, safe_body_excerpt, take_page,
    MethodKind, Query, TemplateKind,
};
use catdesk::json::{json_equal, json_string, numbers_equal, JsonNumber, JsonValue};

fn s(text: &str) -> JsonValue {
    JsonValue::Str(text.to_string())
}

fn n(value: u64) -> JsonValue {
    JsonValue::Number(JsonNumber::PosInt(value))
}

fn obj(members: Vec<(&str, JsonValue)>) -> JsonValue {
    JsonValue::Object(
        members
            .into_iter()
            .map(|(k, v)| (k.to_string(), v))
            .collect(),
    )
}

fn members(members: Vec<(&str, JsonValue)>) -> Vec<(String, JsonValue)> {
    members
        .into_iter()
        .map(|(k, v)| (k.to_string(), v))
        .collect()
}

fn text(value: &JsonValue) -> String {
    json_string(value)
}

fn query(report: &str) -> Query {
    Query {
        report: report.to_string(),
        begin_date: None,
        end_date: None,
        cinema: None,
        page_size: None,
        max_rows: None,
        extra: Vec::new(),
        contains: Vec::new(),
        equals: Vec::new(),
    }
}

#[test]
fn aliases_resolve_to_verified_reports() {
    let operating = resolve_report("operating_statistic").unwrap();
    assert_eq!(operating.path, "/bi/marketing/operatingStatistic");
    assert!(operating.verified);
    assert_eq!(operating.template, TemplateKind::OperatingStatistic);

    let stock = resolve_report("stockTrace").unwrap();
    assert_eq!(stock.path, "/bi/goods/stockTrace");
    assert!(stock.verified);
}

#[test]
fn documented_paths_are_allowed_but_marked_unverified() {
    let report = resolve_report("/bi/card/rechargeReport").unwrap();
    assert_eq!(report.path, "/bi/card/rechargeReport");
    assert!(!report.verified);
    assert_eq!(report.template, TemplateKind::GenericDateReport);
}

#[test]
fn china_midnight_uses_previous_day_at_16_utc() {
    assert_eq!(
        china_midnight_as_utc("2026-09-06").unwrap(),
        "2026-09-05T16:00:00.000Z"
    );
    assert_eq!(
        china_midnight_as_utc("2026-01-01").unwrap(),
        "2025-12-31T16:00:00.000Z"
    );
}

#[test]
fn local_filters_support_contains_and_equals() {
    let row = members(vec![
        ("categoryName", s("周边衍生品")),
        ("cinemaName", s("长沙雨花店")),
        ("count", n(3)),
    ]);
    let contains = vec![("categoryName".to_string(), "衍生".to_string())];
    let equals = vec![("count".to_string(), n(3))];
    assert!(local_contains_match(&row, &contains));
    assert!(local_equals_match(&row, &equals));
}

#[test]
fn report_names_are_trimmed_and_unknown_ones_refused() {
    let cinema = resolve_report("  cinemaData \n").unwrap();
    assert_eq!(cinema.path, "/bi/cinema/data");
    assert_eq!(cinema.method, MethodKind::Get);
    assert_eq!(cinema.template, TemplateKind::CinemaData);
    assert!(resolve_report("/bi/unknown").is_none());
    assert_eq!(
        report_or_error("nope").unwrap_err(),
        "Unsupported BI report 'nope'. Use a documented alias/path returned by this tool's schema."
    );
}

#[test]
fn dates_are_read_strictly() {
    assert_eq!(
        parse_date("2024-02-29").unwrap(),
        CalendarDate { year: 2024, month: 2, day: 29 }
    );
    assert_eq!(
        parse_date("2023-02-29").unwrap_err(),
        "Invalid calendar date '2023-02-29'"
    );
    assert_eq!(
        parse_date("2023-13-01").unwrap_err(),
        "Invalid date '2023-13-01', expected YYYY-MM-DD"
    );
    assert_eq!(
        parse_date("2023-01").unwrap_err(),
        "Invalid date '2023-01', expected YYYY-MM-DD"
    );
    assert_eq!(
        parse_date("2023-01-01-01").unwrap_err(),
        "Invalid date '2023-01-01-01', expected YYYY-MM-DD"
    );
    assert_eq!(
        parse_date("+2023-+1-01").unwrap(),
        CalendarDate { year: 2023, month: 1, day: 1 }
    );
    assert_eq!(
        parse_date("10000-01-01").unwrap_err(),
        "Invalid calendar date '10000-01-01'"
    );
}

#[test]
fn midnight_before_the_first_year_writes_a_sign() {
    assert_eq!(
        china_midnight_as_utc("0000-01-01").unwrap(),
        "-0001-12-31T16:00:00.000Z"
    );
    assert_eq!(
        china_midnight_as_utc("2024-03-01").unwrap(),
        "2024-02-29T16:00:00.000Z"
    );
    assert!(china_midnight_as_utc("2024-3").is_err());
}

#[test]
fn an_excerpt_is_one_line_and_bounded() {
    assert_eq!(safe_body_excerpt("a\r\nb"), "a  b");
    let long = "x".repeat(900);
    assert_eq!(safe_body_excerpt(&long).chars().count(), 800);
    assert_eq!(http_failure(502, "bad\ngateway"), "YunZhi BI returned HTTP 502: bad gateway");
    assert_eq!(non_json_failure("<html>"), "YunZhi BI returned a non-JSON response: <html>");
}

#[test]
fn an_api_error_code_is_reported_with_its_message() {
    let ok = obj(vec![("code", s("SUCCESS"))]);
    assert!(ensure_api_success(&ok).is_ok());
    assert!(ensure_api_success(&obj(vec![])).is_ok());
    let failed = obj(vec![("code", s("DENIED")), ("message", s("no access"))]);
    assert_eq!(
        ensure_api_success(&failed).unwrap_err(),
        "YunZhi BI API DENIED: no access"
    );
    let bare = obj(vec![("code", s("E1"))]);
    assert_eq!(
        ensure_api_success(&bare).unwrap_err(),
        "YunZhi BI API E1: unknown error"
    );
}

#[test]
fn rows_are_found_under_a_named_list_or_nested_below() {
    let response = obj(vec![
        ("code", s("SUCCESS")),
        (
            "data",
            obj(vec![
                (
                    "list",
                    JsonValue::Array(vec![obj(vec![("a", n(1))]), n(7), obj(vec![("a", n(2))])]),
                ),
                ("totalItems", n(42)),
            ]),
        ),
    ]);
    let rows = extract_rows(&response).unwrap();
    assert_eq!(rows.len(), 2);
    assert_eq!(rows[1][0].0, "a");
    assert_eq!(extract_total_items(&response), Some(42));

    let bare = JsonValue::Array(vec![obj(vec![("b", n(1))])]);
    assert_eq!(extract_rows(&bare).unwrap().len(), 1);
    assert!(extract_rows(&obj(vec![("x", n(1))])).is_none());
    assert_eq!(extract_total_items(&obj(vec![("total", s("9"))])), None);
}

#[test]
fn a_payload_carries_dates_pages_and_extra_members_in_key_order() {
    let spec = resolve_report("operating_statistic").unwrap();
    let extra = members(vec![("pageSize", n(50))]);
    let payload = build_payload(&spec, Some("2026-09-06"), None, 1, 200, &Vec::new(), &extra)
        .unwrap()
        .unwrap();
    assert_eq!(
        text(&payload),
        "{\"beginTime\":\"2026-09-06\",\"endTime\":\"2026-09-06\",\"giftCombo\":true,\
         \"gmt\":[\"2026-09-05T16:00:00.000Z\",\"2026-09-05T16:00:00.000Z\",\"YYYY-MM-DD\"],\
         \"pageNo\":1,\"pageSize\":50}"
    );

    let stock = resolve_report("stock_trace").unwrap();
    let ids = vec!["7".to_string()];
    let payload = build_payload(&stock, Some("2026-01-02"), Some("2026-01-03"), 2, 10, &ids, &Vec::new())
        .unwrap()
        .unwrap();
    assert_eq!(
        text(&payload),
        "{\"beginTime\":\"2026-01-02\",\"cinemaLinkIds\":[\"7\"],\"endTime\":\"2026-01-03\",\
         \"gmt\":[\"2026-01-01T16:00:00.000Z\",\"2026-01-02T16:00:00.000Z\",\"YYYY-MM-DD\"],\
         \"pageNo\":2,\"pageSize\":10,\"statisticsType\":\"BY_ITEM\"}"
    );

    let cinema = resolve_report("cinema_data").unwrap();
    assert!(build_payload(&cinema, None, None, 1, 1, &Vec::new(), &Vec::new())
        .unwrap()
        .is_none());
    assert_eq!(
        build_payload(&spec, None, None, 1, 1, &Vec::new(), &Vec::new()).unwrap_err(),
        "begin_date is required"
    );
}

#[test]
fn a_plan_clamps_its_sizes_and_checks_its_dates() {
    let spec = resolve_report("category_group_sale").unwrap();
    let mut q = query("category_group_sale");
    assert_eq!(
        plan_query(&spec, &q).unwrap_err(),
        "begin_date is required for BI report queries"
    );
    q.begin_date = Some("2026-05-01".to_string());
    q.page_size = Some(9000);
    q.max_rows = Some(0);
    let plan = plan_query(&spec, &q).unwrap();
    assert_eq!(plan.page_size, 500);
    assert_eq!(plan.max_rows, 1);
    assert_eq!(plan.end_date.as_deref(), Some("2026-05-01"));

    let stock = resolve_report("stock_trace").unwrap();
    assert_eq!(
        plan_query(&stock, &q).unwrap_err(),
        "stock_trace requires a cinema name so cinemaLinkIds can be resolved"
    );
    q.end_date = Some("2026-02-30".to_string());
    assert_eq!(
        normalize_dates(&spec, &q).unwrap_err(),
        "Invalid calendar date '2026-02-30'"
    );
    let cinema = resolve_report("cinema_data").unwrap();
    let (b, e) = normalize_dates(&cinema, &q).unwrap();
    assert_eq!(b.as_deref(), Some("2026-05-01"));
    assert_eq!(e.as_deref(), Some("2026-02-30"));
}

#[test]
fn cinema_ids_are_matched_by_name_then_sorted_and_deduplicated() {
    let response = obj(vec![(
        "list",
        JsonValue::Array(vec![
            obj(vec![("cinemaLinkId", s("b2")), ("cinemaName", s("Wanda CBD"))]),
            obj(vec![("cinemaLinkId", n(10)), ("cinemaName", s("WANDA East"))]),
            obj(vec![("cinemaLinkId", s("b2")), ("cinemaName", s("wanda cbd"))]),
            obj(vec![("cinemaLinkId", s("zz")), ("cinemaName", s("Other"))]),
        ]),
    )]);
    assert_eq!(
        cinema_link_ids(&response, "wanda").unwrap(),
        vec!["10".to_string(), "b2".to_string()]
    );
    assert_eq!(
        cinema_link_ids(&response, "nowhere").unwrap_err(),
        "No cinemaLinkId matched cinema name 'nowhere'"
    );
    assert_eq!(
        cinema_link_ids(&obj(vec![]), "x").unwrap_err(),
        "Cinema list response did not contain a row list"
    );
}

#[test]
fn pages_are_gathered_until_the_stated_total() {
    let mut pages = new_pages();
    let page = |ids: Vec<u64>| {
        obj(vec![
            (
                "list",
                JsonValue::Array(ids.into_iter().map(|i| obj(vec![("id", n(i))])).collect()),
            ),
            ("total", n(3)),
        ])
    };
    assert!(take_page(&mut pages, page(vec![1, 2]), 2).unwrap());
    assert_eq!(pages.page_no, 2);
    assert!(!take_page(&mut pages, page(vec![3]), 2).unwrap());
    assert_eq!(pages.rows.len(), 3);
    assert_eq!(pages.reported_total, Some(3));

    let mut failing = new_pages();
    let refused = obj(vec![("code", s("LIMIT")), ("message", s("slow down"))]);
    assert_eq!(
        take_page(&mut failing, refused, 2).unwrap_err(),
        "YunZhi BI API LIMIT: slow down"
    );
    assert!(failing.first_response.is_none());
}

#[test]
fn a_query_result_reports_filtered_rows_and_counts() {
    let spec = resolve_report("operating_statistic").unwrap();
    let mut q = query("operating_statistic");
    q.begin_date = Some("2026-09-06".to_string());
    q.cinema = Some("yuhua".to_string());
    q.max_rows = Some(1);
    let plan = plan_query(&spec, &q).unwrap();
    let mut pages = new_pages();
    let response = obj(vec![(
        "list",
        JsonValue::Array(vec![
            obj(vec![("cinemaName", s("Yuhua One")), ("n", n(1))]),
            obj(vec![("cinemaName", s("Other")), ("n", n(2))]),
            obj(vec![("cinemaName", s("YUHUA two")), ("n", n(3))]),
        ]),
    )]);
    assert!(!take_page(&mut pages, response, 200).unwrap());
    let result = finish_query(&q, &spec, &plan, pages);
    assert_eq!(
        text(&result),
        "{\"beginDate\":\"2026-09-06\",\"cinema\":\"yuhua\",\"cinemaFilterApplied\":true,\
         \"endDate\":\"2026-09-06\",\"path\":\"/bi/marketing/operatingStatistic\",\
         \"report\":\"operating_statistic\",\"rows\":[{\"cinemaName\":\"Yuhua One\",\"n\":1}],\
         \"rowsBeforeLocalFilters\":3,\"success\":true,\"totalItems\":null,\"totalMatched\":2,\
         \"truncated\":true,\"verifiedTemplate\":true}"
    );
}

#[test]
fn a_query_without_rows_reports_the_raw_response() {
    let spec = resolve_report("cinema_data").unwrap();
    let q = query("cinema_data");
    let plan = plan_query(&spec, &q).unwrap();
    let mut pages = new_pages();
    assert!(!take_page(&mut pages, obj(vec![("note", s("empty"))]), 200).unwrap());
    let result = finish_query(&q, &spec, &plan, pages);
    assert_eq!(
        text(&result),
        "{\"beginDate\":null,\"cinema\":null,\"endDate\":null,\"path\":\"/bi/cinema/data\",\
         \"raw\":{\"note\":\"empty\"},\"report\":\"cinema_data\",\"rows\":[],\"success\":true,\
         \"verifiedTemplate\":true}"
    );
}

#[test]
fn a_large_raw_response_is_summarised() {
    let small = obj(vec![("a", n(1))]);
    assert_eq!(text(&bounded_raw(small)), "{\"a\":1}");
    let big = obj(vec![("blob", s(&"y".repeat(30000))), ("code", s("SUCCESS"))]);
    assert_eq!(
        text(&bounded_raw(big)),
        "{\"approxBytes\":30028,\"omitted\":true,\
         \"reason\":\"raw response exceeded the CatDesk BI output budget\",\
         \"topLevelKeys\":[\"blob\",\"code\"]}"
    );
}

#[test]
fn blank_credentials_are_refused() {
    assert!(check_credentials("t", "u", "l").is_ok());
    assert_eq!(
        check_credentials("t", "  ", "l").unwrap_err(),
        "YunZhi session JSON contains an empty credential field"
    );
}

#[test]
fn a_report_resolves_the_same_through_white_space_and_by_its_path() {
    for name in ["stockTrace", "cinema_data", "/bi/card/rechargeReport", "categoryGroupSale"] {
        let plain = resolve_report(name).expect("known report");
        let padded = resolve_report(&format!(" \t{name}\n ")).expect("known report");
        assert_eq!(padded.path, plain.path);
        let again = resolve_report(&plain.path).expect("path resolves");
        assert_eq!(again.path, plain.path);
        assert_eq!(again.method, plain.method);
        assert_eq!(again.template, plain.template);
        assert_eq!(again.verified, plain.verified);
        assert_eq!(plain.verified, plain.template != TemplateKind::GenericDateReport);
        assert_eq!(plain.method == MethodKind::Get, plain.template == TemplateKind::CinemaData);
    }
    assert!(resolve_report("nope").is_none());
    assert!(resolve_report("Stock_Trace").is_none());
}

fn float(text: &str) -> JsonValue {
    JsonValue::Number(JsonNumber::Float(text.to_string()))
}

#[test]
fn numbers_compare_as_serde_json_compares_them() {
    let zero = JsonNumber::Float("0.0".to_string());
    let minus_zero = JsonNumber::Float("-0.0".to_string());
    assert!(numbers_equal(&zero, &minus_zero));
    assert!(numbers_equal(&JsonNumber::NegInt(5), &JsonNumber::PosInt(5)));
    assert!(!numbers_equal(&JsonNumber::NegInt(-5), &JsonNumber::PosInt(5)));
    assert!(!numbers_equal(&JsonNumber::PosInt(1), &JsonNumber::Float("1.0".to_string())));
    assert!(!numbers_equal(&JsonNumber::Float("1.5".to_string()), &zero));

    let row = members(vec![("rate", float("-0.0")), ("list", JsonValue::Array(vec![n(1), float("2.5")]))]);
    let equals = vec![
        ("rate".to_string(), float("0.0")),
        ("list".to_string(), JsonValue::Array(vec![n(1), float("2.5")])),
    ];
    assert!(local_equals_match(&row, &equals));
    let unequal = vec![("list".to_string(), JsonValue::Array(vec![n(1)]))];
    assert!(!local_equals_match(&row, &unequal));
    assert!(!json_equal(&s("1"), &n(1)));
}

#[test]
fn json_text_is_what_serde_json_writes() {
    let value = JsonValue::Object(members(vec![
        ("a", JsonValue::Array(vec![n(1), float("-0.0"), float("2.5"), JsonValue::Null])),
        ("b", s("q\"\n\u{1}")),
        ("c", JsonValue::Bool(true)),
        ("d", JsonValue::Number(JsonNumber::NegInt(-7))),
    ]));
    assert_eq!(
        json_string(&value),
        "{\"a\":[1,-0.0,2.5,null],\"b\":\"q\\\"\\n\\u0001\",\"c\":true,\"d\":-7}"
    );
}
