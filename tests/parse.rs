use airkorea::{extract_text_from_element, parse, parse_page, ExtractError, Grade, Pollutant};
use scraper::Html;

const CAI: [&str; 24] = [
    "74", "68", "63", "64", "65", "60", "63", "66", "74", "79", "79", "82", "79", "85", "92", "97",
    "100", "97", "90", "83", "83", "84", "85", "81",
];

const SO2: [&str; 24] = [
    "0.004", "0.003", "0.003", "0.003", "0.003", "0.003", "0.003", "0.003", "0.003", "0.003",
    "0.003", "0.002", "0.003", "0.003", "0.005", "0.005", "0.004", "0.004", "0.003", "0.003",
    "0.003", "0.003", "0.003", "0.003",
];

fn card(label: &str, grade: &str, unit: &str) -> String {
    let sub = if unit.is_empty() {
        String::new()
    } else {
        format!("<sub>{}</sub>", unit)
    };
    format!(
        "<li><div class=\"tit\">{}</div><div class=\"con\"><div class=\"co\"><div class=\"tx\"><span class=\"t1\">{}{}</span></div></div></div></li>\n",
        label, grade, sub
    )
}

fn rows(values: &[&str]) -> String {
    let cells: Vec<String> = values
        .iter()
        .enumerate()
        .map(|(h, v)| format!("['{}시',{},'#00f']", h, v))
        .collect();
    format!("data.addRows([{}]);\n", cells.join(","))
}

fn station_page() -> String {
    let flat = ["30"; 24];
    let mut page = String::from(
        "<!DOCTYPE html><html><head><title>air</title></head><body>\n<h1><span class=\"tit\">\n  세종 세종시 신흥동측정소\n</span><span class=\"tim\">2019-04-13 18시 기준</span></h1>\n<div class=\"mList\"><ul>\n",
    );
    page.push_str(&card("통합대기환경지수(CAI)", "보통", ""));
    page.push_str(&card("미세먼지(PM10)", "좋음", "㎍/㎥"));
    page.push_str(&card("초미세먼지(PM2.5)", "좋음", "㎍/㎥"));
    page.push_str(&card("오존(O3)", "나쁨", "ppm"));
    page.push_str(&card("이산화질소(NO2)", "좋음", "ppm"));
    page.push_str(&card("일산화탄소(CO)", "좋음", "ppm"));
    page.push_str(&card("아황산가스(SO2)", "좋음", "ppm"));
    page.push_str("</ul></div>\n<div class=\"foot\">info</div>\n<script>\nvar data = new Chart();\n");
    page.push_str(&rows(&CAI));
    for _ in 0..5 {
        page.push_str(&rows(&flat));
    }
    page.push_str(&rows(&SO2));
    page.push_str("draw(data);\n</script>\n</body></html>");
    page
}

fn numbers(p: &Pollutant) -> Vec<Option<f32>> {
    p.data
        .iter()
        .map(|r| r.as_ref().map(|t| t.parse::<f32>().unwrap()))
        .collect()
}

#[test]
fn test_parse() {
    let html = Html::parse_document(&station_page());

    let status = parse(&html).unwrap();

    assert_eq!(&status.station_address, "세종 세종시 신흥동측정소");
    assert_eq!(&status.time, "2019-04-13 18시 기준");

    assert_eq!(&status.pollutants[0].name, "CAI");
    assert_eq!(&status.pollutants[0].unit, "");
    assert_eq!(status.pollutants[0].grade, Grade::Normal);
    assert_eq!(
        numbers(&status.pollutants[0]),
        vec![
            Some(74.0),
            Some(68.0),
            Some(63.0),
            Some(64.0),
            Some(65.0),
            Some(60.0),
            Some(63.0),
            Some(66.0),
            Some(74.0),
            Some(79.0),
            Some(79.0),
            Some(82.0),
            Some(79.0),
            Some(85.0),
            Some(92.0),
            Some(97.0),
            Some(100.0),
            Some(97.0),
            Some(90.0),
            Some(83.0),
            Some(83.0),
            Some(84.0),
            Some(85.0),
            Some(81.0),
        ]
    );

    assert_eq!(&status.pollutants[6].name, "SO2");
    assert_eq!(&status.pollutants[6].unit, "ppm");
    assert_eq!(status.pollutants[6].grade, Grade::Good);
    assert_eq!(
        numbers(&status.pollutants[6]),
        vec![
            Some(0.004),
            Some(0.003),
            Some(0.003),
            Some(0.003),
            Some(0.003),
            Some(0.003),
            Some(0.003),
            Some(0.003),
            Some(0.003),
            Some(0.003),
            Some(0.003),
            Some(0.002),
            Some(0.003),
            Some(0.003),
            Some(0.005),
            Some(0.005),
            Some(0.004),
            Some(0.004),
            Some(0.003),
            Some(0.003),
            Some(0.003),
            Some(0.003),
            Some(0.003),
            Some(0.003),
        ]
    );
}

#[test]
fn parse_reads_every_card_in_order() {
    let status = parse_page(&station_page()).unwrap();
    let names: Vec<&str> = status.pollutants.iter().map(|p| p.name.as_str()).collect();
    assert_eq!(names, vec!["CAI", "PM10", "PM2.5", "O3", "NO2", "CO", "SO2"]);
    assert_eq!(status.pollutants[3].grade, Grade::Bad);
    assert_eq!(&status.pollutants[1].unit, "㎍/㎥");
    for p in &status.pollutants {
        assert_eq!(p.data.len(), 24);
    }
}

#[test]
fn parse_twice_gives_equal_status() {
    let page = station_page();
    let a = parse_page(&page).unwrap();
    let b = parse_page(&page).unwrap();
    assert_eq!(a, b);
}

#[test]
fn parse_without_script_is_an_error() {
    let page = "<html><body><h1><span class=\"tit\">어딘가</span></h1></body></html>";
    assert_eq!(parse_page(page).unwrap_err(), ExtractError::MissingScript);
}

#[test]
fn parse_of_empty_page_reads_empty_fields() {
    let page = "<html><body><script>nothing here</script></body></html>";
    let status = parse_page(page).unwrap();
    assert_eq!(status.station_address, "");
    assert_eq!(status.time, "");
    assert!(status.pollutants.is_empty());
}

#[test]
fn parse_drops_an_informational_card() {
    let mut page = String::from("<html><body><div class=\"mList\"><ul>\n");
    page.push_str(&card("안내", "좋음", "ppm"));
    page.push_str(&card("오존(O3)", "나쁨", "ppm"));
    page.push_str("</ul></div><script>\n");
    page.push_str(&rows(&["0.071", "0.08"]));
    page.push_str("</script></body></html>");
    let status = parse_page(&page).unwrap();
    assert_eq!(status.pollutants.len(), 1);
    assert_eq!(&status.pollutants[0].name, "O3");
    assert_eq!(status.pollutants[0].grade, Grade::Bad);
    assert_eq!(
        status.pollutants[0].data,
        vec![Some("0.071".to_string()), Some("0.08".to_string())]
    );
}

#[test]
fn test_extract_text_from_element() {
    let html = Html::parse_fragment("<p>foo<span>bar<h1>baz</h1></span></p>");
    let element = html.root_element();
    let text = extract_text_from_element(&element);

    assert_eq!(&text, "foobarbaz");
}

#[test]
fn extract_text_trims_each_node() {
    let html = Html::parse_fragment("<p>  foo \n<span>\tbar </span> baz</p>");
    let text = extract_text_from_element(&html.root_element());
    assert_eq!(&text, "foobarbaz");
}
