use mandelbrot_dist::challenge::{
    challenge_reply, decimal_text, is_whitespace, parse_challenge, parse_u16, split_words,
};
use mandelbrot_dist::gallery::image_gallery;
use mandelbrot_dist::registry::Registry;
use mandelbrot_dist::session::{connect_step, ConnectAction, ConnectEvent, Decoded, FrameBuffer, WorkerStep};

#[test]
fn a_challenge_is_answered_with_the_sum() {
    assert_eq!(parse_challenge("SOLVE: 3 + 4"), Some((3, 4)));
    assert_eq!(challenge_reply(3, 4), "RESULT: 7");
}

#[test]
fn a_challenge_tolerates_extra_spaces_and_a_newline() {
    assert_eq!(parse_challenge("SOLVE:   120 +  5\n"), Some((120, 5)));
    assert_eq!(parse_challenge("SOLVE:\u{3000}1 x 2 more"), Some((1, 2)));
}

#[test]
fn messages_that_are_not_challenges() {
    assert_eq!(parse_challenge("hello"), None);
    assert_eq!(parse_challenge("SOLVE: 3 +"), None);
    assert_eq!(parse_challenge("SOLVE: x + 4"), None);
    assert_eq!(parse_challenge("SOLVE: 70000 + 4"), None);
    assert_eq!(parse_challenge(" SOLVE: 1 + 1"), None);
    assert_eq!(parse_challenge("SOLVE:1 2 + 3"), Some((2, 3)));
    assert_eq!(parse_challenge("SOLVE:1 + 2 + 3"), None);
}

#[test]
fn sixteen_bit_numbers_parse_as_std_does() {
    for s in ["0", "42", "+42", "007", "65535", "65536", "", "+", "-1", "1 ", "4a", "99999999999"] {
        assert_eq!(parse_u16(s), s.parse::<u16>().ok(), "input {:?}", s);
    }
}

#[test]
fn decimal_text_matches_to_string() {
    for n in [0u32, 7, 10, 99, 100, 65535, 4_000_000_000] {
        assert_eq!(decimal_text(n), n.to_string());
    }
}

#[test]
fn largest_challenge_sum() {
    assert_eq!(challenge_reply(65535, 0), "RESULT: 65535");
}

#[test]
fn whitespace_is_what_std_calls_whitespace() {
    for u in 0u32..0x3100 {
        if let Some(c) = char::from_u32(u) {
            assert_eq!(is_whitespace(c), c.is_whitespace(), "char {:x}", u);
        }
    }
}

#[test]
fn words_split_as_split_whitespace_does() {
    let s = "  a bc\t\td  ";
    let got: Vec<String> = split_words(s)
        .iter()
        .map(|&(a, b)| s.chars().skip(a).take(b - a).collect())
        .collect();
    let want: Vec<String> = s.split_whitespace().map(|w| w.to_string()).collect();
    assert_eq!(got, want);
}

#[test]
fn broadcast_greets_every_client() {
    let mut r = Registry::new();
    r.insert("10.0.0.2:5000".to_string());
    r.insert("10.0.0.3:5001".to_string());
    r.insert("10.0.0.2:5000".to_string());
    assert_eq!(r.len(), 2);
    let lines = r.broadcast("hola\n");
    assert_eq!(lines.len(), 2);
    assert_eq!(lines[0].0, "10.0.0.2:5000");
    assert_eq!(lines[0].1, "Broadcast desde el Hub para 10.0.0.2:5000: hola\n");
    assert_eq!(lines[1].1, "Broadcast desde el Hub para 10.0.0.3:5001: hola\n");
    r.remove(&"10.0.0.2:5000".to_string());
    assert_eq!(r.len(), 1);
    assert_eq!(r.broadcast("x")[0].0, "10.0.0.3:5001");
}

#[test]
fn a_worker_keeps_an_incomplete_message() {
    let mut b = FrameBuffer::new();
    b.extend(b"{\"Assi");
    assert!(matches!(b.worker_on_decoded(Decoded::Incomplete), WorkerStep::ReadMore));
    assert_eq!(b.as_slice(), b"{\"Assi");
    b.extend(b"gnTask\":{}}");
    assert_eq!(b.as_slice(), b"{\"AssignTask\":{}}");
    assert!(matches!(b.worker_on_decoded(Decoded::Assign), WorkerStep::RunTask));
    assert!(b.as_slice().is_empty());
}

#[test]
fn a_worker_stops_on_a_hub_error_and_drops_garbage() {
    let mut b = FrameBuffer::new();
    b.extend(b"garbage");
    assert!(matches!(b.worker_on_decoded(Decoded::Invalid), WorkerStep::ReadMore));
    assert!(b.as_slice().is_empty());
    b.extend(b"{\"Error\":\"x\"}");
    assert!(matches!(b.worker_on_decoded(Decoded::HubError), WorkerStep::Stop));
    b.extend(b"{}");
    assert!(matches!(b.worker_on_decoded(Decoded::Result), WorkerStep::ReadMore));
    assert!(b.as_slice().is_empty());
}

#[test]
fn the_hub_waits_for_a_result() {
    let mut b = FrameBuffer::new();
    b.extend(b"abc");
    assert!(!b.hub_on_decoded(Decoded::Invalid));
    assert_eq!(b.as_slice(), b"abc");
    assert!(b.hub_on_decoded(Decoded::Result));
    assert!(b.as_slice().is_empty());
    b.extend(b"z");
    b.clear();
    assert!(b.as_slice().is_empty());
}

#[test]
fn gallery_without_directory_shows_a_notice() {
    let html = image_gallery(None);
    assert!(html.starts_with("<html><head><title>Galería Mandelbrot</title>"));
    assert!(html.contains("No hay imágenes generadas todavía"));
    assert!(html.ends_with("</div></body></html>"));
}

#[test]
fn gallery_shows_one_card_per_image() {
    let html = image_gallery(Some(vec!["a.png".to_string(), "b.png".to_string()]));
    assert_eq!(html.matches("<div class=\"card\">").count(), 2);
    assert!(html.contains("<img src=\"/images/a.png\" alt=\"a.png\" loading=\"lazy\" />"));
    assert!(html.contains("Ver Tamaño Completo<br><small>b.png</small></a>"));
    assert!(!html.contains("No hay imágenes"));
    let empty = image_gallery(Some(vec![]));
    assert!(!empty.contains("card\""));
}

#[test]
fn parsing_decimal_text_gives_the_number_back() {
    for n in 0u32..=65535 {
        assert_eq!(parse_u16(&decimal_text(n)), Some(n as u16));
    }
}

#[test]
fn connection_retries_follow_the_event() {
    assert!(matches!(connect_step(ConnectEvent::LookupFailed, 2), ConnectAction::RetryAfter(2)));
    assert!(matches!(connect_step(ConnectEvent::BindFailed, 2), ConnectAction::RetryAfter(2)));
    assert!(matches!(connect_step(ConnectEvent::ConnectFailed, 3), ConnectAction::RetryAfter(3)));
    assert!(matches!(connect_step(ConnectEvent::LookupEmpty, 2), ConnectAction::RetryNow));
    assert!(matches!(connect_step(ConnectEvent::SetupFailed, 2), ConnectAction::Fail));
    assert!(matches!(connect_step(ConnectEvent::Connected, 2), ConnectAction::Done));
}

#[test]
fn prototype_result_holds_its_pixels() {
    let r = mandelbrot_dist::prototype::TaskResult {
        task_id: 1,
        worker_id: "10.10.10.2:5000".to_string(),
        pixels: vec![256; 3],
    };
    assert_eq!((r.task_id, r.pixels.len()), (1, 3));
}
