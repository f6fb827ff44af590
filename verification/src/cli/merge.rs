//! The file list that ffmpeg's concat demuxer reads when segments are merged with it.
use vstd::prelude::*;

verus! {

/// `t` with each `'` written as `'\''`, for use inside single quotes.
pub open spec fn escape_quotes(t: Seq<char>) -> Seq<char>
    decreases t.len(),
{
    if t.len() == 0 {
        seq![]
    } else if t.last() == '\'' {
        escape_quotes(t.drop_last()) + seq!['\'', '\\', '\'', '\'']
    } else {
        escape_quotes(t.drop_last()).push(t.last())
    }
}

/// The line naming one input file.
pub open spec fn file_line(p: Seq<char>) -> Seq<char> {
    "file '"@ + escape_quotes(p) + "'"@
}

/// The lines naming the input files, joined by line feeds.
pub open spec fn concat_list_spec(ps: Seq<Seq<char>>) -> Seq<char>
    decreases ps.len(),
{
    if ps.len() == 0 {
        seq![]
    } else if ps.len() == 1 {
        file_line(ps[0])
    } else {
        concat_list_spec(ps.drop_last()) + seq!['\n'] + file_line(ps.last())
    }
}

/// Appends `p` with its quotes escaped.
fn append_escaped(out: &mut String, p: &str)
    ensures
        final(out)@ == old(out)@ + escape_quotes(p@),
{
    let n = p.unicode_len();
    let ghost start = out@;
    let mut i: usize = 0;
    proof {
        assert(p@.take(0) =~= seq![]);
        assert(out@ =~= start + escape_quotes(p@.take(0)));
    }
    while i < n
        invariant
            n == p@.len(),
            i <= n,
            out@ == start + escape_quotes(p@.take(i as int)),
        decreases n - i,
    {
        let c = p.get_char(i);
        proof {
            assert(p@.take(i + 1).drop_last() =~= p@.take(i as int));
            assert(p@.take(i + 1).last() == c);
        }
        if c == '\'' {
            out.append("'\\''");
            proof {
                reveal_strlit("'\\''");
                assert(out@ =~= start + escape_quotes(p@.take(i + 1)));
            }
        } else {
            let one = p.substring_char(i, i + 1);
            out.append(one);
            proof {
                assert(one@ =~= seq![c]);
                assert(out@ =~= start + escape_quotes(p@.take(i + 1)));
            }
        }
        i = i + 1;
    }
    proof {
        assert(p@.take(n as int) =~= p@);
    }
}

/// The input list of ffmpeg's concat demuxer: a line `file '<path>'` per file, in order,
/// with quotes in paths escaped, lines separated by line feeds.
pub fn concat_list(paths: &Vec<String>) -> (s: String)
    ensures
        s@ == concat_list_spec(paths@.map_values(|p: String| p@)),
{
    let ghost ps = paths@.map_values(|p: String| p@);
    let mut s = String::new();
    let mut i: usize = 0;
    proof {
        assert(ps.take(0) =~= seq![]);
    }
    while i < paths.len()
        invariant
            i <= paths@.len(),
            ps == paths@.map_values(|p: String| p@),
            s@ == concat_list_spec(ps.take(i as int)),
        decreases paths.len() - i,
    {
        let ghost before = s@;
        if i > 0 {
            s.append("\n");
        }
        s.append("file '");
        append_escaped(&mut s, paths[i].as_str());
        s.append("'");
        proof {
            reveal_strlit("\n");
            reveal_strlit("file '");
            reveal_strlit("'");
            let t = ps.take(i + 1);
            assert(t.drop_last() =~= ps.take(i as int));
            assert(t.last() == paths@[i as int]@);
            if i == 0 {
                assert(t.len() == 1);
                assert(t[0] == paths@[0]@);
                assert(s@ =~= file_line(t[0]));
            } else {
                assert(s@ =~= before + seq!['\n'] + file_line(t.last()));
            }
        }
        i = i + 1;
    }
    proof {
        assert(ps.take(paths@.len() as int) =~= ps);
    }
    s
}

} // verus!
