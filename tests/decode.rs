use airkorea::{decode_payload, decode_series, parses_as_number};

fn some(t: &str) -> Option<String> {
    Some(t.to_string())
}

#[test]
fn decode_series_reads_each_call_in_order() {
    let script = "var c = 1;\nchart.addRows([['19시',74,'a'],['20시',68,'b']]);\nother.addRows([['19시',0.004,'a'],['20시',0.003,'b'],['21시',0.005,'c']]);\ndraw();";
    let series = decode_series(script);
    assert_eq!(series.len(), 2);
    assert_eq!(series[0], vec![some("74"), some("68")]);
    assert_eq!(series[1], vec![some("0.004"), some("0.003"), some("0.005")]);
}

#[test]
fn decode_series_keeps_a_row_without_number_as_none() {
    let series = decode_series("addRows([['1시',74,''],['2시',-,''],['3시',81,'']]);");
    assert_eq!(series, vec![vec![some("74"), None, some("81")]]);
}

#[test]
fn decode_series_of_a_truncated_day_keeps_the_rows_present() {
    let series = decode_series("addRows([['0시',12,''],['1시',13,''],['2시',15,'']]);");
    assert_eq!(series.len(), 1);
    assert_eq!(series[0].len(), 3);
    assert_eq!(series[0], vec![some("12"), some("13"), some("15")]);
}

#[test]
fn decode_series_without_calls_is_empty() {
    assert!(decode_series("").is_empty());
    assert!(decode_series("draw(data);").is_empty());
    assert!(decode_series("addRows([[1,2]]").is_empty());
}

#[test]
fn decode_series_ends_each_call_at_its_own_close() {
    let series = decode_series("addRows([[1,7,0]]); addRows([[2,8,0]]);");
    assert_eq!(series, vec![vec![some("7")], vec![some("8")]]);
    let series = decode_series("addRows([[1,2,3]\n]);");
    assert_eq!(series, vec![vec![some("2")]]);
}

#[test]
fn decode_series_ignores_unrelated_text() {
    let plain = decode_series("addRows([[a,1,x],[b,2,x]]);");
    let noisy = decode_series("f([0]); addRows([[a,1,x],[b,2,x]]); q([3],[4]);");
    assert_eq!(plain, vec![vec![some("1"), some("2")]]);
    assert_eq!(noisy, plain);
}

#[test]
fn decode_series_takes_the_first_number_of_a_row_as_written() {
    let series = decode_series("addRows([['x', 1, 2],['y',3e2,4],['z',,+.5,6]]);");
    assert_eq!(series, vec![vec![None, some("3e2"), some("+.5")]]);
}

#[test]
fn decode_payload_splits_rows() {
    assert_eq!(
        decode_payload("[a,1,b],[c,NaN,d],[e,f]"),
        vec![some("1"), some("NaN"), None]
    );
    assert_eq!(decode_payload(""), vec![None]);
    assert_eq!(decode_payload("[k,9,x]"), vec![some("9")]);
}

#[test]
fn numbers_agree_with_std() {
    let tokens = [
        "0", "74", "0.004", "+1", "-2.5", ".5", "5.", ".", "", "-", "+", "1e3", "1E-3", "1e", "e3",
        "1.5e+7", "inf", "-INF", "Infinity", "nan", "NaN", "nana", " 1", "1 ", "1,0", "1..2", "0x10",
        "1_000", "--1", "+-1", "'19시'", "[74", "81]", "12.5e", "1e+", "00.00", "9.e2", ".e2",
    ];
    for t in tokens.iter() {
        assert_eq!(parses_as_number(t), t.parse::<f32>().is_ok(), "token {:?}", t);
    }
}
