//! The DRM information printed before a download: each PSSH box once, and each key ID
//! once, with the key IDs the streams need marked.
use crate::downloader::vid::same_string;
use crate::mp4::b64::b64_text;
use crate::mp4::pssh::parser::{PsshData, PsshView, SystemId, SystemIdView};
use vstd::prelude::*;

verus! {

/// A line of the DRM report.
#[derive(Clone, Debug)]
pub enum DrmLine {
    /// A PSSH box, in base64.
    Pssh { system: SystemId, data: String },
    /// A key ID (hexadecimal) that a PSSH box names; `required` where a stream's default
    /// key ID is this one.
    Kid { system: SystemId, kid: String, required: bool },
}

/// The content of a report line.
pub enum DrmLineView {
    Pssh { system: SystemIdView, data: Seq<char> },
    Kid { system: SystemIdView, kid: Seq<char>, required: bool },
}

impl DrmLine {
    pub open spec fn view_line(&self) -> DrmLineView {
        match self {
            DrmLine::Pssh { system, data } => DrmLineView::Pssh {
                system: system.view_id(),
                data: data@,
            },
            DrmLine::Kid { system, kid, required } => DrmLineView::Kid {
                system: system.view_id(),
                kid: kid@,
                required: *required,
            },
        }
    }
}

/// The lines as plain values.
pub open spec fn lines_view(v: Seq<DrmLine>) -> Seq<DrmLineView> {
    v.map_values(|l: DrmLine| l.view_line())
}

/// The key ID lines of a box: each of its key IDs not seen before (nor earlier in the
/// box), marked where it is among `required`.
pub open spec fn kid_lines(
    system: SystemIdView,
    kids: Seq<Seq<char>>,
    seen: Seq<Seq<char>>,
    required: Seq<Seq<char>>,
) -> Seq<DrmLineView>
    decreases kids.len(),
{
    if kids.len() == 0 {
        seq![]
    } else if seen.contains(kids[0]) {
        kid_lines(system, kids.drop_first(), seen, required)
    } else {
        seq![DrmLineView::Kid { system, kid: kids[0], required: required.contains(kids[0]) }]
            + kid_lines(system, kids.drop_first(), seen.push(kids[0]), required)
    }
}

/// The key IDs seen once the key IDs `kids` have been reported.
pub open spec fn seen_after(kids: Seq<Seq<char>>, seen: Seq<Seq<char>>) -> Seq<Seq<char>>
    decreases kids.len(),
{
    if kids.len() == 0 {
        seen
    } else if seen.contains(kids[0]) {
        seen_after(kids.drop_first(), seen)
    } else {
        seen_after(kids.drop_first(), seen.push(kids[0]))
    }
}

/// The report of the boxes `bs`: each box whose base64 text was not seen before, then
/// its key IDs not seen before.
pub open spec fn report_spec(
    bs: Seq<PsshView>,
    seen_boxes: Seq<Seq<char>>,
    seen_kids: Seq<Seq<char>>,
    required: Seq<Seq<char>>,
) -> Seq<DrmLineView>
    decreases bs.len(),
{
    if bs.len() == 0 {
        seq![]
    } else {
        let b = bs[0];
        let text = b64_text(b.data);
        if seen_boxes.contains(text) {
            report_spec(bs.drop_first(), seen_boxes, seen_kids, required)
        } else {
            seq![DrmLineView::Pssh { system: b.system_id, data: text }] + kid_lines(
                b.system_id,
                b.key_ids,
                seen_kids,
                required,
            ) + report_spec(
                bs.drop_first(),
                seen_boxes.push(text),
                seen_after(b.key_ids, seen_kids),
                required,
            )
        }
    }
}

/// The texts as plain values.
pub open spec fn texts_view(v: Seq<String>) -> Seq<Seq<char>> {
    v.map_values(|s: String| s@)
}

fn copy_system(s: &SystemId) -> (r: SystemId)
    ensures
        r.view_id() == s.view_id(),
{
    match s {
        SystemId::Common => SystemId::Common,
        SystemId::Other(x) => SystemId::Other(x.clone()),
        SystemId::PlayReady => SystemId::PlayReady,
        SystemId::WideVine => SystemId::WideVine,
    }
}

fn contains_text(v: &Vec<String>, x: &String) -> (r: bool)
    ensures
        r == texts_view(v@).contains(x@),
{
    let mut i: usize = 0;
    while i < v.len()
        invariant
            i <= v@.len(),
            forall|k: int| 0 <= k < i ==> v@[k]@ != x@,
        decreases v.len() - i,
    {
        if same_string(&v[i], x.as_str()) {
            proof {
                assert(texts_view(v@)[i as int] == x@);
            }
            return true;
        }
        i = i + 1;
    }
    proof {
        if texts_view(v@).contains(x@) {
            let k = choose|k: int| 0 <= k < v@.len() && texts_view(v@)[k] == x@;
            assert(v@[k]@ == x@);
        }
    }
    false
}

/// Adds the key ID lines of one box.
fn push_kid_lines(
    system: &SystemId,
    kids: &Vec<String>,
    seen: &mut Vec<String>,
    required: &Vec<String>,
    out: &mut Vec<DrmLine>,
)
    ensures
        lines_view(final(out)@) == lines_view(old(out)@) + kid_lines(
            system.view_id(),
            texts_view(kids@),
            texts_view(old(seen)@),
            texts_view(required@),
        ),
        texts_view(final(seen)@) == seen_after(texts_view(kids@), texts_view(old(seen)@)),
{
    let ghost ks = texts_view(kids@);
    let ghost out0 = lines_view(out@);
    let ghost seen0 = texts_view(seen@);
    let mut i: usize = 0;
    proof {
        assert(ks.skip(0) =~= ks);
        assert(lines_view(out@) =~= out0 + Seq::<DrmLineView>::empty());
    }
    while i < kids.len()
        invariant
            i <= kids@.len(),
            ks == texts_view(kids@),
            out0 + kid_lines(system.view_id(), ks, seen0, texts_view(required@)) == lines_view(out@)
                + kid_lines(system.view_id(), ks.skip(i as int), texts_view(seen@), texts_view(required@)),
            seen_after(ks, seen0) == seen_after(ks.skip(i as int), texts_view(seen@)),
        decreases kids.len() - i,
    {
        let ghost rest = ks.skip(i as int);
        proof {
            assert(rest[0] == kids@[i as int]@);
            assert(rest.drop_first() =~= ks.skip(i + 1));
        }
        let kid = &kids[i];
        if !contains_text(seen, kid) {
            let req = contains_text(required, kid);
            let ghost before = lines_view(out@);
            let ghost seen_before = texts_view(seen@);
            out.push(DrmLine::Kid { system: copy_system(system), kid: kid.clone(), required: req });
            seen.push(kid.clone());
            proof {
                assert(lines_view(out@) =~= before.push(
                    DrmLineView::Kid { system: system.view_id(), kid: kid@, required: req },
                ));
                assert(texts_view(seen@) =~= seen_before.push(kid@));
                assert(before + kid_lines(system.view_id(), rest, seen_before, texts_view(required@))
                    =~= lines_view(out@) + kid_lines(
                    system.view_id(),
                    ks.skip(i + 1),
                    texts_view(seen@),
                    texts_view(required@),
                ));
            }
        }
        i = i + 1;
    }
    proof {
        assert(ks.skip(i as int) =~= Seq::<Seq<char>>::empty());
        assert(lines_view(out@) + Seq::<DrmLineView>::empty() =~= lines_view(out@));
    }
}

/// The DRM report of the PSSH boxes of a download's streams, in order: each box once
/// (by its base64 text), followed by its key IDs that were not reported before, each
/// marked where it is among the streams' default key IDs `required`.
pub fn pssh_report(boxes: &Vec<PsshData>, required: &Vec<String>) -> (r: Vec<DrmLine>)
    ensures
        lines_view(r@) == report_spec(
            boxes@.map_values(|d: PsshData| d.view_data()),
            seq![],
            seq![],
            texts_view(required@),
        ),
{
    let ghost bs = boxes@.map_values(|d: PsshData| d.view_data());
    let ghost req = texts_view(required@);
    let mut out: Vec<DrmLine> = Vec::new();
    let mut seen_boxes: Vec<String> = Vec::new();
    let mut seen_kids: Vec<String> = Vec::new();
    let mut i: usize = 0;
    proof {
        assert(bs.skip(0) =~= bs);
        assert(texts_view(seen_boxes@) =~= Seq::<Seq<char>>::empty());
        assert(texts_view(seen_kids@) =~= Seq::<Seq<char>>::empty());
        assert(lines_view(out@) + report_spec(bs, seq![], seq![], req) =~= report_spec(
            bs,
            seq![],
            seq![],
            req,
        ));
    }
    while i < boxes.len()
        invariant
            i <= boxes@.len(),
            bs == boxes@.map_values(|d: PsshData| d.view_data()),
            req == texts_view(required@),
            report_spec(bs, seq![], seq![], req) == lines_view(out@) + report_spec(
                bs.skip(i as int),
                texts_view(seen_boxes@),
                texts_view(seen_kids@),
                req,
            ),
        decreases boxes.len() - i,
    {
        let ghost rest = bs.skip(i as int);
        proof {
            assert(rest[0] == boxes@[i as int].view_data());
            assert(rest.drop_first() =~= bs.skip(i + 1));
        }
        let b = &boxes[i];
        let text = b.as_base64();
        if !contains_text(&seen_boxes, &text) {
            let ghost before = lines_view(out@);
            let ghost sb = texts_view(seen_boxes@);
            let ghost sk = texts_view(seen_kids@);
            out.push(DrmLine::Pssh { system: copy_system(&b.system_id), data: text.clone() });
            proof {
                assert(lines_view(out@) =~= before.push(
                    DrmLineView::Pssh { system: b.system_id.view_id(), data: text@ },
                ));
            }
            push_kid_lines(&b.system_id, &b.key_ids, &mut seen_kids, required, &mut out);
            seen_boxes.push(text);
            proof {
                assert(texts_view(seen_boxes@) =~= sb.push(text@));
                assert(before + report_spec(rest, sb, sk, req) =~= lines_view(out@) + report_spec(
                    bs.skip(i + 1),
                    texts_view(seen_boxes@),
                    texts_view(seen_kids@),
                    req,
                ));
            }
        }
        i = i + 1;
    }
    proof {
        assert(bs.skip(i as int) =~= Seq::<PsshView>::empty());
        assert(lines_view(out@) + Seq::<DrmLineView>::empty() =~= lines_view(out@));
    }
    out
}

} // verus!
