//! The output pump's per-chunk work: the text frame broadcast to
//! observers, and the host-stdout text with every cursor-position report
//! request stripped out.
use vstd::prelude::*;

verus! {

/// The Device Status Report request starts at position `i` of `s`:
/// escape, bracket, six, `n`.
pub open spec fn occurs_at(s: Seq<char>, i: int) -> bool {
    0 <= i && i + 4 <= s.len() && s[i] == '\u{1b}' && s[i + 1] == '[' && s[i + 2] == '6' && s[i
        + 3] == 'n'
}

/// `s` with the report requests removed, scanning left to right.
pub open spec fn strip_dsr_spec(s: Seq<char>) -> Seq<char>
    decreases s.len(),
{
    if s.len() == 0 {
        Seq::empty()
    } else if occurs_at(s, 0) {
        strip_dsr_spec(s.skip(4))
    } else {
        seq![s[0]] + strip_dsr_spec(s.skip(1))
    }
}

/// Removes every report request from the text.
pub fn strip_dsr(s: &str) -> (r: String)
    ensures
        r@ == strip_dsr_spec(s@),
{
    let len = s.unicode_len();
    let mut acc = String::new();
    let mut i: usize = 0;
    proof {
        assert(s@.skip(0) =~= s@);
        assert(acc@ + strip_dsr_spec(s@) =~= strip_dsr_spec(s@));
    }
    while i < len
        invariant
            i <= len,
            len == s@.len(),
            strip_dsr_spec(s@) == acc@ + strip_dsr_spec(s@.skip(i as int)),
        decreases len - i,
    {
        let ghost sv = s@.skip(i as int);
        proof {
            assert(sv[0] == s@[i as int]);
            if i + 1 < len {
                assert(sv[1] == s@[i + 1]);
            }
            if i + 2 < len {
                assert(sv[2] == s@[i + 2]);
            }
            if i + 3 < len {
                assert(sv[3] == s@[i + 3]);
            }
        }
        let hit = len - i >= 4 && s.get_char(i) == '\u{1b}' && s.get_char(i + 1) == '['
            && s.get_char(i + 2) == '6' && s.get_char(i + 3) == 'n';
        if hit {
            proof {
                assert(occurs_at(sv, 0));
                assert(sv.skip(4) =~= s@.skip(i + 4));
            }
            i = i + 4;
        } else {
            proof {
                assert(!occurs_at(sv, 0));
                assert(sv.skip(1) =~= s@.skip(i + 1));
            }
            let piece = s.substring_char(i, i + 1);
            acc.append(piece);
            proof {
                assert(s@.subrange(i as int, i + 1) =~= seq![s@[i as int]]);
                assert(acc@ + strip_dsr_spec(s@.skip(i + 1)) =~= strip_dsr_spec(s@));
            }
            i = i + 1;
        }
    }
    proof {
        assert(s@.skip(len as int) =~= Seq::<char>::empty());
        assert(acc@ =~= strip_dsr_spec(s@));
    }
    acc
}

/// When every escape character in the text opens a full report request,
/// the stripped text holds no escape character, and so no report request
/// at all. Interleaved output can split a request across chunks; such a
/// text falls outside this premise.
pub proof fn lemma_strip_dsr_clean(s: Seq<char>)
    requires
        forall|i: int| 0 <= i < s.len() && s[i] == '\u{1b}' ==> occurs_at(s, i),
    ensures
        forall|j: int|
            0 <= j < strip_dsr_spec(s).len() ==> strip_dsr_spec(s)[j] != '\u{1b}',
        forall|j: int| !occurs_at(strip_dsr_spec(s), j),
    decreases s.len(),
{
    if s.len() == 0 {
        assert(strip_dsr_spec(s) =~= Seq::<char>::empty());
    } else if occurs_at(s, 0) {
        assert(strip_dsr_spec(s) == strip_dsr_spec(s.skip(4)));
        assert forall|i: int|
            0 <= i < s.skip(4).len() && s.skip(4)[i] == '\u{1b}' implies occurs_at(
            s.skip(4),
            i,
        ) by {
            assert(s.skip(4)[i] == s[i + 4]);
            assert(occurs_at(s, i + 4));
            assert(s.skip(4)[i + 1] == s[i + 5]);
            assert(s.skip(4)[i + 2] == s[i + 6]);
            assert(s.skip(4)[i + 3] == s[i + 7]);
        }
        lemma_strip_dsr_clean(s.skip(4));
    } else {
        assert(s[0] != '\u{1b}') by {
            if s[0] == '\u{1b}' {
                assert(occurs_at(s, 0));
            }
        }
        assert forall|i: int|
            0 <= i < s.skip(1).len() && s.skip(1)[i] == '\u{1b}' implies occurs_at(
            s.skip(1),
            i,
        ) by {
            assert(s.skip(1)[i] == s[i + 1]);
            assert(occurs_at(s, i + 1));
            assert(s.skip(1)[i + 1] == s[i + 2]);
            assert(s.skip(1)[i + 2] == s[i + 3]);
            assert(s.skip(1)[i + 3] == s[i + 4]);
        }
        lemma_strip_dsr_clean(s.skip(1));
        let r = strip_dsr_spec(s);
        assert(r == seq![s[0]] + strip_dsr_spec(s.skip(1)));
        assert forall|j: int| 0 <= j < r.len() implies r[j] != '\u{1b}' by {
            if j > 0 {
                assert(r[j] == strip_dsr_spec(s.skip(1))[j - 1]);
            }
        }
        assert forall|j: int| !occurs_at(r, j) by {
            if occurs_at(r, j) {
                assert(r[j] == '\u{1b}');
            }
        }
    }
}

/// The text of the characters that the given bytes decode to, invalid
/// sequences replaced; a function of the bytes alone.
pub uninterp spec fn lossy_of(bytes: Seq<u8>) -> Seq<char>;

/// Relies on `String::from_utf8_lossy`: decodes the bytes as UTF-8 with
/// replacement characters for invalid sequences.
#[verifier::external_body]
fn utf8_lossy(bytes: &[u8]) -> (r: String)
    ensures
        r@ == lossy_of(bytes@),
{
    String::from_utf8_lossy(bytes).to_string()
}

/// What one chunk of child output produces: the frame for observers, and
/// the text for the host's stdout when the session is not quiet.
pub struct ChunkOutput {
    pub frame: String,
    pub stdout_text: Option<String>,
}

/// Turns one chunk of child output into its outputs: the frame is the
/// chunk decoded as text; the stdout text, present only when not quiet,
/// is that text with every cursor-position report request stripped.
pub fn process_chunk(bytes: &[u8], quiet: bool) -> (r: ChunkOutput)
    ensures
        r.frame@ == lossy_of(bytes@),
        quiet ==> r.stdout_text is None,
        !quiet ==> r.stdout_text is Some && r.stdout_text->0@ == strip_dsr_spec(lossy_of(bytes@)),
{
    let frame = utf8_lossy(bytes);
    if quiet {
        ChunkOutput { frame, stdout_text: None }
    } else {
        let cleaned = strip_dsr(frame.as_str());
        ChunkOutput { frame, stdout_text: Some(cleaned) }
    }
}

/// The shell that runs a command and its flag: the configured
/// interpreter, or the default one, with `/C` on Windows; `sh -c`
/// elsewhere. The environment lookup belongs to the embedding program.
pub fn shell_command_parts(windows: bool, comspec: Option<String>) -> (r: (String, String))
    ensures
        windows ==> r.1@ == "/C"@ && (match comspec {
            Some(c) => r.0@ == c@,
            None => r.0@ == "cmd.exe"@,
        }),
        !windows ==> r.0@ == "sh"@ && r.1@ == "-c"@,
{
    if windows {
        let shell = match comspec {
            Some(c) => c,
            None => "cmd.exe".to_owned(),
        };
        (shell, "/C".to_owned())
    } else {
        ("sh".to_owned(), "-c".to_owned())
    }
}

} // verus!
