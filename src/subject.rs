use vstd::prelude::*;
use vstd::string::*;

use crate::errors::InputParseError;

verus! {

/// The subjects that attendance is kept for.
#[derive(Debug, Clone, Copy, PartialEq, Eq, Structural, Hash)]
pub enum Subject {
    Dms,
    Tc,
    Mpi,
    Dbms,
    Toc,
    Dccn,
    MpiLab,
    DbmsLab,
    NpLab,
    LinuxLab,
    JavaLab,
}

/// The exact, case-sensitive name of each subject.
pub open spec fn subject_name(s: Subject) -> Seq<char> {
    match s {
        Subject::Dms => "Dms"@,
        Subject::Tc => "Tc"@,
        Subject::Mpi => "Mpi"@,
        Subject::Dbms => "Dbms"@,
        Subject::Toc => "Toc"@,
        Subject::Dccn => "Dccn"@,
        Subject::MpiLab => "MpiLab"@,
        Subject::DbmsLab => "DbmsLab"@,
        Subject::NpLab => "NpLab"@,
        Subject::LinuxLab => "LinuxLab"@,
        Subject::JavaLab => "JavaLab"@,
    }
}

/// The subject named exactly `t`, if any.
pub open spec fn subject_named(t: Seq<char>) -> Option<Subject> {
    if t == "Dms"@ {
        Some(Subject::Dms)
    } else if t == "Tc"@ {
        Some(Subject::Tc)
    } else if t == "Mpi"@ {
        Some(Subject::Mpi)
    } else if t == "Dbms"@ {
        Some(Subject::Dbms)
    } else if t == "Toc"@ {
        Some(Subject::Toc)
    } else if t == "Dccn"@ {
        Some(Subject::Dccn)
    } else if t == "MpiLab"@ {
        Some(Subject::MpiLab)
    } else if t == "DbmsLab"@ {
        Some(Subject::DbmsLab)
    } else if t == "NpLab"@ {
        Some(Subject::NpLab)
    } else if t == "LinuxLab"@ {
        Some(Subject::LinuxLab)
    } else if t == "JavaLab"@ {
        Some(Subject::JavaLab)
    } else {
        None
    }
}

/// Whether two texts hold the same characters.
pub fn same_text(a: &str, b: &str) -> (r: bool)
    ensures
        r == (a@ == b@),
{
    let n = a.unicode_len();
    if n != b.unicode_len() {
        return false;
    }
    let mut i: usize = 0;
    while i < n
        invariant
            n == a@.len(),
            n == b@.len(),
            0 <= i <= n,
            forall|k: int| 0 <= k < i ==> a@[k] == b@[k],
        decreases n - i,
    {
        if a.get_char(i) != b.get_char(i) {
            return false;
        }
        i = i + 1;
    }
    proof {
        assert(a@ =~= b@);
    }
    true
}

impl Subject {
    /// The subject's name.
    pub fn name(&self) -> (r: &'static str)
        ensures
            r@ == subject_name(*self),
    {
        match self {
            Subject::Dms => "Dms",
            Subject::Tc => "Tc",
            Subject::Mpi => "Mpi",
            Subject::Dbms => "Dbms",
            Subject::Toc => "Toc",
            Subject::Dccn => "Dccn",
            Subject::MpiLab => "MpiLab",
            Subject::DbmsLab => "DbmsLab",
            Subject::NpLab => "NpLab",
            Subject::LinuxLab => "LinuxLab",
            Subject::JavaLab => "JavaLab",
        }
    }

    /// The subject's name as an owned string.
    pub fn render(&self) -> (r: String)
        ensures
            r@ == subject_name(*self),
    {
        String::from_str(self.name())
    }

    /// The subject whose name is exactly `text`; no trimming, no case folding.
    pub fn parse(text: &str) -> (r: Result<Subject, InputParseError>)
        ensures
            r == (match subject_named(text@) {
                Some(s) => Ok(s),
                None => Err(InputParseError::UnknownSubject),
            }),
    {
        if same_text(text, "Dms") {
            Ok(Subject::Dms)
        } else if same_text(text, "Tc") {
            Ok(Subject::Tc)
        } else if same_text(text, "Mpi") {
            Ok(Subject::Mpi)
        } else if same_text(text, "Dbms") {
            Ok(Subject::Dbms)
        } else if same_text(text, "Toc") {
            Ok(Subject::Toc)
        } else if same_text(text, "Dccn") {
            Ok(Subject::Dccn)
        } else if same_text(text, "MpiLab") {
            Ok(Subject::MpiLab)
        } else if same_text(text, "DbmsLab") {
            Ok(Subject::DbmsLab)
        } else if same_text(text, "NpLab") {
            Ok(Subject::NpLab)
        } else if same_text(text, "LinuxLab") {
            Ok(Subject::LinuxLab)
        } else if same_text(text, "JavaLab") {
            Ok(Subject::JavaLab)
        } else {
            Err(InputParseError::UnknownSubject)
        }
    }
}

/// Reading a subject's name gives the subject back, and a text that names a
/// subject is that subject's name, letter for letter.
pub proof fn lemma_subject_round_trip(s: Subject, t: Seq<char>)
    ensures
        subject_named(subject_name(s)) == Some(s),
        subject_named(t) is Some ==> subject_name(subject_named(t)->Some_0) == t,
{
    reveal_strlit("Dms");
    reveal_strlit("Tc");
    reveal_strlit("Mpi");
    reveal_strlit("Dbms");
    reveal_strlit("Toc");
    reveal_strlit("Dccn");
    reveal_strlit("MpiLab");
    reveal_strlit("DbmsLab");
    reveal_strlit("NpLab");
    reveal_strlit("LinuxLab");
    reveal_strlit("JavaLab");
    match s {
        Subject::Dms => {
        },
        Subject::Tc => {
            assert("Tc"@.len() != "Dms"@.len());
        },
        Subject::Mpi => {
            assert("Mpi"@[0] != "Dms"@[0]);
            assert("Mpi"@.len() != "Tc"@.len());
        },
        Subject::Dbms => {
            assert("Dbms"@.len() != "Dms"@.len());
            assert("Dbms"@.len() != "Tc"@.len());
            assert("Dbms"@.len() != "Mpi"@.len());
        },
        Subject::Toc => {
            assert("Toc"@[0] != "Dms"@[0]);
            assert("Toc"@.len() != "Tc"@.len());
            assert("Toc"@[0] != "Mpi"@[0]);
            assert("Toc"@.len() != "Dbms"@.len());
        },
        Subject::Dccn => {
            assert("Dccn"@.len() != "Dms"@.len());
            assert("Dccn"@.len() != "Tc"@.len());
            assert("Dccn"@.len() != "Mpi"@.len());
            assert("Dccn"@[1] != "Dbms"@[1]);
            assert("Dccn"@.len() != "Toc"@.len());
        },
        Subject::MpiLab => {
            assert("MpiLab"@.len() != "Dms"@.len());
            assert("MpiLab"@.len() != "Tc"@.len());
            assert("MpiLab"@.len() != "Mpi"@.len());
            assert("MpiLab"@.len() != "Dbms"@.len());
            assert("MpiLab"@.len() != "Toc"@.len());
            assert("MpiLab"@.len() != "Dccn"@.len());
        },
        Subject::DbmsLab => {
            assert("DbmsLab"@.len() != "Dms"@.len());
            assert("DbmsLab"@.len() != "Tc"@.len());
            assert("DbmsLab"@.len() != "Mpi"@.len());
            assert("DbmsLab"@.len() != "Dbms"@.len());
            assert("DbmsLab"@.len() != "Toc"@.len());
            assert("DbmsLab"@.len() != "Dccn"@.len());
            assert("DbmsLab"@.len() != "MpiLab"@.len());
        },
        Subject::NpLab => {
            assert("NpLab"@.len() != "Dms"@.len());
            assert("NpLab"@.len() != "Tc"@.len());
            assert("NpLab"@.len() != "Mpi"@.len());
            assert("NpLab"@.len() != "Dbms"@.len());
            assert("NpLab"@.len() != "Toc"@.len());
            assert("NpLab"@.len() != "Dccn"@.len());
            assert("NpLab"@.len() != "MpiLab"@.len());
            assert("NpLab"@.len() != "DbmsLab"@.len());
        },
        Subject::LinuxLab => {
            assert("LinuxLab"@.len() != "Dms"@.len());
            assert("LinuxLab"@.len() != "Tc"@.len());
            assert("LinuxLab"@.len() != "Mpi"@.len());
            assert("LinuxLab"@.len() != "Dbms"@.len());
            assert("LinuxLab"@.len() != "Toc"@.len());
            assert("LinuxLab"@.len() != "Dccn"@.len());
            assert("LinuxLab"@.len() != "MpiLab"@.len());
            assert("LinuxLab"@.len() != "DbmsLab"@.len());
            assert("LinuxLab"@.len() != "NpLab"@.len());
        },
        Subject::JavaLab => {
            assert("JavaLab"@.len() != "Dms"@.len());
            assert("JavaLab"@.len() != "Tc"@.len());
            assert("JavaLab"@.len() != "Mpi"@.len());
            assert("JavaLab"@.len() != "Dbms"@.len());
            assert("JavaLab"@.len() != "Toc"@.len());
            assert("JavaLab"@.len() != "Dccn"@.len());
            assert("JavaLab"@.len() != "MpiLab"@.len());
            assert("JavaLab"@[0] != "DbmsLab"@[0]);
            assert("JavaLab"@.len() != "NpLab"@.len());
            assert("JavaLab"@.len() != "LinuxLab"@.len());
        },
    }
}

} // verus!
