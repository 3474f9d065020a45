use airkorea::{assemble, AirStatus, CardFields, ExtractError, Grade, PageFields, Pollutant};

fn card(label: &str, grade: &str, unit: &str) -> CardFields {
    CardFields {
        label: label.to_string(),
        grade: grade.to_string(),
        unit: unit.to_string(),
    }
}

fn page(cards: Vec<CardFields>, script: Option<&str>) -> PageFields {
    PageFields {
        station: "세종 세종시 신흥동측정소".to_string(),
        time: "2019-04-13 18시 기준".to_string(),
        cards,
        script: script.map(|s| s.to_string()),
    }
}

fn some(t: &str) -> Option<String> {
    Some(t.to_string())
}

#[test]
fn assemble_pairs_cards_with_series_in_order() {
    let fields = page(
        vec![card("통합대기환경지수(CAI)", "보통", ""), card("아황산가스(SO2)", "좋음ppm", "ppm")],
        Some("a.addRows([['1시',74,''],['2시',81,'']]);\nb.addRows([['1시',0.004,''],['2시',0.003,'']]);"),
    );
    let status = assemble(&fields).unwrap();
    assert_eq!(status.station_address, "세종 세종시 신흥동측정소");
    assert_eq!(status.time, "2019-04-13 18시 기준");
    assert_eq!(status.pollutants.len(), 2);
    assert_eq!(status.pollutants[0].name, "CAI");
    assert_eq!(status.pollutants[0].unit, "");
    assert_eq!(status.pollutants[0].grade, Grade::Normal);
    assert_eq!(status.pollutants[0].data, vec![some("74"), some("81")]);
    assert_eq!(status.pollutants[1].name, "SO2");
    assert_eq!(status.pollutants[1].unit, "ppm");
    assert_eq!(status.pollutants[1].grade, Grade::Good);
    assert_eq!(status.pollutants[1].data, vec![some("0.004"), some("0.003")]);
}

#[test]
fn assemble_drops_a_card_without_code() {
    let fields = page(
        vec![card("측정소 안내", "좋음", "ppm"), card("오존(O3)", "나쁨", "ppm")],
        Some("addRows([[1,0.05,0]]);"),
    );
    let status = assemble(&fields).unwrap();
    assert_eq!(status.pollutants.len(), 1);
    assert_eq!(status.pollutants[0].name, "O3");
    assert_eq!(status.pollutants[0].data, vec![some("0.05")]);
}

#[test]
fn assemble_drops_a_card_without_series() {
    let fields = page(
        vec![card("미세먼지(PM10)", "좋음", "㎍/㎥"), card("오존(O3)", "나쁨", "ppm")],
        Some("addRows([[1,30,0]]);"),
    );
    let status = assemble(&fields).unwrap();
    assert_eq!(status.pollutants.len(), 1);
    assert_eq!(status.pollutants[0].name, "PM10");
}

#[test]
fn assemble_drops_a_series_without_card() {
    let fields = page(
        vec![card("미세먼지(PM10)", "매우나쁨", "㎍/㎥")],
        Some("addRows([[1,300,0]]);\naddRows([[1,0.2,0]]);"),
    );
    let status = assemble(&fields).unwrap();
    assert_eq!(status.pollutants.len(), 1);
    assert_eq!(status.pollutants[0].grade, Grade::Critical);
    assert_eq!(status.pollutants[0].data, vec![some("300")]);
}

#[test]
fn assemble_without_script_is_an_error() {
    let fields = page(vec![card("오존(O3)", "나쁨", "ppm")], None);
    assert_eq!(assemble(&fields).unwrap_err(), ExtractError::MissingScript);
}

#[test]
fn assemble_with_empty_script_has_no_pollutants() {
    let fields = page(vec![card("오존(O3)", "나쁨", "ppm")], Some(""));
    let status = assemble(&fields).unwrap();
    assert!(status.pollutants.is_empty());
}

#[test]
fn assemble_twice_gives_equal_status() {
    let fields = page(
        vec![card("오존(O3)", "나쁨", "ppm")],
        Some("addRows([[1,0.05,0],[2,-,0]]);"),
    );
    let a = assemble(&fields).unwrap();
    let b = assemble(&fields).unwrap();
    assert_eq!(a, b);
}

#[test]
fn statuses_differ_where_a_reading_differs() {
    let one = page(vec![card("오존(O3)", "나쁨", "ppm")], Some("addRows([[1,0.05,0]]);"));
    let two = page(vec![card("오존(O3)", "나쁨", "ppm")], Some("addRows([[1,0.06,0]]);"));
    let three = page(vec![card("오존(O3)", "나쁨", "ppm")], Some("addRows([[1,x,0]]);"));
    let a = assemble(&one).unwrap();
    let b = assemble(&two).unwrap();
    let c = assemble(&three).unwrap();
    assert_ne!(a, b);
    assert_ne!(a, c);
    assert_ne!(a.pollutants[0], c.pollutants[0]);
    assert_eq!(a.pollutants[0], a.pollutants[0].clone());
}

#[test]
fn render_shows_one_line() {
    let p = Pollutant {
        name: "SO2".to_string(),
        unit: "ppm".to_string(),
        data: vec![some("0.004"), None, some("0.003")],
        grade: Grade::Good,
    };
    assert_eq!(p.render(), "SO2   (ppm): 0.004 → -- → 0.003  Good");
}

#[test]
fn render_keeps_a_long_name() {
    let p = Pollutant {
        name: "PM10ABC".to_string(),
        unit: String::new(),
        data: vec![],
        grade: Grade::Unknown,
    };
    assert_eq!(p.render(), "PM10ABC():   None");
}

#[test]
fn iterating_a_status_keeps_order() {
    let status = AirStatus {
        station_address: "a".to_string(),
        time: "t".to_string(),
        pollutants: vec![
            Pollutant { name: "A".to_string(), unit: String::new(), data: vec![], grade: Grade::Bad },
            Pollutant { name: "B".to_string(), unit: String::new(), data: vec![], grade: Grade::Good },
        ],
    };
    let mut names: Vec<String> = Vec::new();
    for p in status {
        names.push(p.name);
    }
    assert_eq!(names, vec!["A".to_string(), "B".to_string()]);
}
