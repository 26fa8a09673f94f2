use speedketchup::backward::{BackwardLines, BLOCK_LEN};
use speedketchup::ranking::fastest_server;
use speedketchup::results::{chart_points, chart_rows, result_line, ChartRow, ResultFields, CSV_COLS};
use speedketchup::throughput::{kilobits_per_ms, progress_percent};
use speedketchup::numbers::IntErrorKind;
use speedketchup::timestamp::{parse_timestr, timestr, TimestrError, CLOCK_LIMIT};

fn finished() -> ResultFields {
    ResultFields {
        latency_idle: b"12.3".to_vec(),
        latency_download: b"45.6".to_vec(),
        latency_upload: b"78.9".to_vec(),
        download: b"912".to_vec(),
        upload: b"34.5".to_vec(),
        client_ip: b"192.0.2.1".to_vec(),
        client_isp: b"Example, Inc".to_vec(),
        server_descr: b"Sponsor/City/Country".to_vec(),
        server_host: b"speed.example.net:8080".to_vec(),
    }
}

#[test]
fn result_line_layout() {
    let line = result_line(1700000000, &Ok(finished()));
    assert_eq!(
        line,
        b"2023.11.14-22:13:20,12.3,45.6,78.9,912,34.5,192.0.2.1,\"Example, Inc\",\"Sponsor/City/Country\",speed.example.net:8080,\n".to_vec()
    );
    let failed = result_line(0, &Err(b"no good server".to_vec()));
    assert_eq!(failed, b"1970.01.01-00:00:00,,,,,,,,,,\"no good server\"\n".to_vec());
}

#[test]
fn saved_results_show_in_the_chart() {
    let mut file = CSV_COLS.as_bytes().to_vec();
    assert!(chart_rows(&file).unwrap().is_empty());
    file.extend_from_slice(&result_line(1700000000, &Ok(finished())));
    file.extend_from_slice(&result_line(1700000600, &Err(b"timeout".to_vec())));
    let rows = chart_rows(&file).unwrap();
    assert_eq!(rows.len(), 2);
    assert_eq!(rows[0].time, 1700000000);
    assert_eq!(
        rows[0].fields,
        vec![b"2023.11.14-22:13:20".to_vec(), b"12.3".to_vec(), b"45.6".to_vec(), b"78.9".to_vec(), b"912".to_vec(), b"34.5".to_vec()]
    );
    assert_eq!(rows[1].time, 1700000600);
    assert_eq!(rows[1].fields[1..], vec![Vec::<u8>::new(); 5][..]);
}

#[test]
fn timestamps_read_back() {
    for secs in [0u64, 59, 86399, 86400, 951782400, 1700000000, 4102444799, 253402300800, 67767976233532799] {
        let t = timestr(secs);
        assert_eq!(parse_timestr(&t), Ok(secs as u32));
    }
}

#[test]
fn single_row_is_drawn_twice() {
    let one = vec![ChartRow { time: 10, fields: vec![b"a".to_vec(), b"1".to_vec()] }];
    let points = chart_points(one);
    assert_eq!(points.len(), 2);
    assert_eq!(points[0].time, 10);
    assert_eq!(points[1].time, 11);
    assert_eq!(points[1].fields, points[0].fields);
    let two = vec![ChartRow { time: 10, fields: vec![] }, ChartRow { time: 20, fields: vec![] }];
    let points = chart_points(two);
    assert_eq!(points.iter().map(|p| p.time).collect::<Vec<_>>(), vec![10, 20]);
    assert!(chart_points(vec![]).is_empty());
}

#[test]
fn fastest_answering_server_is_chosen() {
    assert_eq!(fastest_server(&[None, Some(30), Some(20), Some(20), None]), Some(2));
    assert_eq!(fastest_server(&[Some(5)]), Some(0));
    assert_eq!(fastest_server(&[None, None]), None);
    assert_eq!(fastest_server(&[]), None);
}

#[test]
fn transfer_figures() {
    assert_eq!(progress_percent(2500, 10000), 25);
    assert_eq!(progress_percent(10000, 10000), 100);
    assert_eq!(kilobits_per_ms(1_000_000, 1000), 8000);
    assert_eq!(kilobits_per_ms(7, 3), 18);
}

/// Reads `file` backwards with the library's block steps.
fn read_backwards(file: &[u8]) -> Option<Vec<Vec<u8>>> {
    let mut reader = BackwardLines::new(file.len())?;
    let mut out = Vec::new();
    loop {
        let (off, len) = reader.next_read();
        let block = &file[off..off + len];
        assert!(!reader.block_fails(block));
        let step = reader.take_block(block);
        out.extend(step.lines);
        if step.done {
            if let Some(first) = step.first {
                out.push(first);
            }
            return Some(out);
        }
    }
}

#[test]
fn lines_are_read_last_first() {
    assert_eq!(read_backwards(b""), None);
    assert_eq!(read_backwards(b"a\nb\n").unwrap(), vec![b"".to_vec(), b"b".to_vec(), b"a".to_vec()]);
    assert_eq!(read_backwards(b"\nx").unwrap(), vec![b"x".to_vec()]);
    let mut big = Vec::new();
    let mut expected = Vec::new();
    for i in 0..2000 {
        let line = format!("line {i}").into_bytes();
        big.extend_from_slice(&line);
        big.push(b'\n');
        expected.push(line);
    }
    expected.push(Vec::new());
    expected.reverse();
    assert!(big.len() > 3 * BLOCK_LEN);
    assert_eq!(read_backwards(&big).unwrap(), expected);
}

#[test]
fn block_without_line_break_fails() {
    let reader = BackwardLines::new(3).unwrap();
    assert_eq!(reader.next_read(), (0, 3));
    assert!(reader.block_fails(b"abc"));
    assert!(!reader.block_fails(b"a\nc"));
}

#[test]
fn years_past_four_digits() {
    assert_eq!(timestr(253402300800), "10000.01.01-00:00:00");
    assert_eq!(timestr(67767976233532799), "2147483647.12.31-23:59:59");
    assert_eq!(timestr(CLOCK_LIMIT - 1), "2147485547.12.31-23:59:59");
    assert_eq!(
        parse_timestr(&timestr(CLOCK_LIMIT - 1)),
        Err(TimestrError::BadField(IntErrorKind::PosOverflow))
    );
    let line = result_line(253402300800, &Err(b"e".to_vec()));
    assert_eq!(line, b"10000.01.01-00:00:00,,,,,,,,,,\"e\"\n".to_vec());
}
