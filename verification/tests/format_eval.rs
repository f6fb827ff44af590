use vsd::format::parser::{Field, Filter, FilterOp, FormatExpr};
use vsd::format::text::matches_text_field;
use vsd::playlist::types::MediaType;
use vsd::progress::Eta;

#[derive(Default)]
struct Stream {
    media_type: Option<MediaType>,
    resolution: Option<(u64, u64)>,
    bandwidth: Option<u64>,
    codecs: Option<String>,
    frame_rate: Option<f32>,
    channels: Option<f32>,
    language: Option<String>,
}

fn compare_numeric(actual: f64, op: &FilterOp, value: &str) -> bool {
    const EPS: f64 = 0.001;
    match op {
        FilterOp::Eq => value
            .split(',')
            .filter_map(|v| v.trim().parse::<f64>().ok())
            .any(|v| (actual - v).abs() < EPS),
        FilterOp::Ne => value
            .split(',')
            .filter_map(|v| v.trim().parse::<f64>().ok())
            .all(|v| (actual - v).abs() >= EPS),
        _ => {
            let Ok(value) = value.trim().parse::<f64>() else {
                return false;
            };
            match op {
                FilterOp::Le => actual <= value + EPS,
                FilterOp::Ge => actual >= value - EPS,
                FilterOp::Lt => actual < value - EPS,
                FilterOp::Gt => actual > value + EPS,
                _ => false,
            }
        }
    }
}

fn matches_filter(s: &Stream, f: &Filter) -> bool {
    if let Some(verdict) =
        matches_text_field(&f.field, s.resolution, &s.language, &s.codecs, &f.op, &f.value)
    {
        return verdict;
    }
    match f.field {
        Field::Width => compare_numeric(s.resolution.map_or(0.0, |(w, _)| w as f64), &f.op, &f.value),
        Field::Height => compare_numeric(s.resolution.map_or(0.0, |(_, h)| h as f64), &f.op, &f.value),
        Field::Tbr | Field::Abr | Field::Vbr => compare_numeric(
            s.bandwidth.map_or(0.0, |b| b as f64 / 1000.0),
            &f.op,
            &f.value,
        ),
        Field::Fps => compare_numeric(s.frame_rate.map_or(0.0, f64::from), &f.op, &f.value),
        Field::AudioChannels => compare_numeric(s.channels.map_or(0.0, f64::from), &f.op, &f.value),
        Field::Resolution | Field::Language | Field::Acodec | Field::Vcodec => false,
    }
}

fn eval(expr: FormatExpr, streams: &[Stream]) -> Vec<usize> {
    let filters = expr.filters();
    let kinds = streams
        .iter()
        .map(|s| s.media_type.unwrap_or(MediaType::Undefined))
        .collect::<Vec<_>>();
    let table = streams
        .iter()
        .map(|s| filters.iter().map(|f| matches_filter(s, f)).collect())
        .collect::<Vec<Vec<bool>>>();
    expr.eval_table(&kinds, &table)
}

fn vid(width: u64, height: u64, bw: u64) -> Stream {
    Stream {
        media_type: Some(MediaType::Video),
        resolution: Some((width, height)),
        bandwidth: Some(bw),
        codecs: Some("avc1.640028".to_owned()),
        frame_rate: Some(30.0),
        ..Default::default()
    }
}

fn aud(lang: &str, bw: u64) -> Stream {
    Stream {
        media_type: Some(MediaType::Audio),
        language: Some(lang.to_owned()),
        bandwidth: Some(bw),
        codecs: Some("mp4a.40.2".to_owned()),
        channels: Some(2.0),
        ..Default::default()
    }
}

fn sub(lang: &str) -> Stream {
    Stream {
        media_type: Some(MediaType::Subtitles),
        language: Some(lang.to_owned()),
        ..Default::default()
    }
}

fn und() -> Stream {
    Stream {
        media_type: Some(MediaType::Undefined),
        ..Default::default()
    }
}

#[test]
fn eval_best_video() {
    assert_eq!(
        eval(FormatExpr::parse("bv").unwrap(), &[vid(1920, 1080, 8000000), vid(1280, 720, 4500000)]),
        [0]
    );
}

#[test]
fn eval_worst_video() {
    assert_eq!(
        eval(FormatExpr::parse("wv").unwrap(), &[vid(1920, 1080, 8000000), vid(1280, 720, 4500000)]),
        [1]
    );
}

#[test]
fn eval_merge() {
    assert_eq!(
        eval(
            FormatExpr::parse("bv+ba+s").unwrap(),
            &[vid(1920, 1080, 8000000), aud("en", 512000), sub("en")]
        ),
        [0, 1, 2]
    );
}

#[test]
fn eval_index() {
    assert_eq!(
        eval(
            FormatExpr::parse("1+3").unwrap(),
            &[vid(1920, 1080, 8000000), aud("en", 512000), sub("en")]
        ),
        [0, 2]
    );
}

#[test]
fn eval_filter_height() {
    assert_eq!(
        eval(
            FormatExpr::parse("bv[height<=720]").unwrap(),
            &[vid(1920, 1080, 8000000), vid(1280, 720, 4500000), vid(640, 360, 1200000)]
        ),
        [1]
    );
}

#[test]
fn eval_filter_language() {
    assert_eq!(
        eval(
            FormatExpr::parse("ba[language=fr]").unwrap(),
            &[aud("en", 512000), aud("fr", 256000), aud("es", 128000)]
        ),
        [1]
    );
}

#[test]
fn eval_filter_languages() {
    assert_eq!(
        eval(
            FormatExpr::parse("allaud[language=en,fr]").unwrap(),
            &[aud("en", 512000), aud("fr", 256000), aud("es", 128000)]
        ),
        [0, 1]
    );
}

#[test]
fn eval_all() {
    assert_eq!(
        eval(
            FormatExpr::parse("all").unwrap(),
            &[vid(1920, 1080, 8000000), aud("en", 512000), sub("en")]
        ),
        [0, 1, 2]
    );
}

#[test]
fn eval_allvid() {
    assert_eq!(
        eval(
            FormatExpr::parse("allvid").unwrap(),
            &[vid(1920, 1080, 8000000), vid(1280, 720, 4500000), aud("en", 512000)]
        ),
        [0, 1]
    );
}

#[test]
fn eval_fallback_first_success() {
    assert_eq!(
        eval(
            FormatExpr::parse("bv[height=1080]+ba / bv[height=720]+ba").unwrap(),
            &[vid(1920, 1080, 8000000), vid(1280, 720, 4500000), aud("en", 512000)]
        ),
        [0, 2]
    );
}

#[test]
fn eval_fallback_first_fail() {
    assert_eq!(
        eval(
            FormatExpr::parse("bv[height=1080]+ba / bv[height=720]+ba").unwrap(),
            &[vid(1280, 720, 4500000), aud("en", 512000)]
        ),
        [0, 1]
    );
}

#[test]
fn eval_default() {
    assert_eq!(
        eval(
            FormatExpr::parse("b+s+allund").unwrap(),
            &[
                vid(1920, 1080, 8000000),
                vid(1280, 720, 4500000),
                aud("en", 512000),
                aud("fr", 256000),
                sub("en"),
                sub("fr"),
                und(),
            ]
        ),
        [0, 2, 4, 6]
    );
}

#[test]
fn eval_missing() {
    assert_eq!(
        eval(
            FormatExpr::parse("b+s+allund").unwrap(),
            &[vid(1920, 1080, 8000000), sub("en")]
        ),
        [0, 1]
    );
}

#[test]
fn eval_table_numbers_filters_left_to_right() {
    let expr = FormatExpr::parse("bv[height=1]+ba[language=en][abr>1]").unwrap();
    let filters = expr.filters();
    assert_eq!(filters.len(), 3);
    assert_eq!(filters[1].field, Field::Language);
    let kinds = vec![MediaType::Video, MediaType::Audio, MediaType::Audio];
    let table = vec![vec![true, false, false], vec![false, true, false], vec![false, true, true]];
    assert_eq!(expr.eval_table(&kinds, &table), vec![0, 2]);
    // A strict fallback skips an alternative whose part selects nothing.
    let expr = FormatExpr::parse("5/2").unwrap();
    assert_eq!(expr.eval_table(&kinds, &vec![vec![]; 3]), vec![1]);
    assert_eq!(expr.eval_table(&vec![], &vec![]), Vec::<usize>::new());
}

#[test]
fn eta_text() {
    assert_eq!(Eta(3).to_string(), "3s");
    assert_eq!(Eta(125).to_string(), "2m5s");
    assert_eq!(Eta(3600).to_string(), "1h0m0s");
    assert_eq!(Eta(3725).to_string(), "1h2m5s");
}
