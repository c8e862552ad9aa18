//! Symbol versions, data modes and error-correction levels.
use vstd::prelude::*;

use crate::errors::QrError;

verus! {

/// A QR symbol version, guaranteed to be in 1..=40.
///
/// The only way to build one is [`Version::new`], so anything holding a
/// `Version` can index the version tables without re-checking the range.
#[derive(Debug, Clone, Copy, PartialEq, Eq, PartialOrd, Ord)]
pub struct Version(u8);

impl View for Version {
    type V = int;

    closed spec fn view(&self) -> int {
        self.0 as int
    }
}

impl Version {
    /// The smallest QR symbol version.
    pub const MIN: u8 = 1;

    /// The largest QR symbol version.
    pub const MAX: u8 = 40;

    #[verifier::type_invariant]
    spec fn in_range(self) -> bool {
        Self::MIN <= self.0 <= Self::MAX
    }

    /// What `Version::new(version)` returns: the version numbered `version`,
    /// or `InvalidVersion(version)` outside 1..=40.
    pub closed spec fn built(version: u8) -> Result<Version, QrError> {
        if 1 <= version <= 40 {
            Ok(Version(version))
        } else {
            Err(QrError::InvalidVersion(version as usize))
        }
    }

    /// Two versions with the same number are the same version.
    pub proof fn lemma_number_determines_version(a: Version, b: Version)
        ensures
            a@ == b@ <==> a == b,
    {
    }

    /// Building a version from the number of a version `x` gives `x` back,
    /// and the version built from a number in 1..=40 has that number.
    pub proof fn law_new_and_get_round_trip(x: Version, n: u8)
        requires
            1 <= x@ <= 40,
        ensures
            Version::built(x@ as u8) == Ok::<Version, QrError>(x),
            1 <= n <= 40 ==> (Version::built(n) matches Ok(v) && v@ == n as int),
    {
    }

    /// Builds the version `version`, or reports that it is outside 1..=40.
    pub fn new(version: u8) -> (r: Result<Version, QrError>)
        ensures
            r == Version::built(version),
            match r {
                Ok(v) => 1 <= version <= 40 && v@ == version as int,
                Err(e) => !(1 <= version <= 40) && e == QrError::InvalidVersion(version as usize),
            },
    {
        if Self::MIN <= version && version <= Self::MAX {
            Ok(Version(version))
        } else {
            Err(QrError::InvalidVersion(version as usize))
        }
    }

    /// The version number, in 1..=40.
    pub fn get(self) -> (r: u8)
        ensures
            r as int == self@,
            1 <= r <= 40,
    {
        proof {
            use_type_invariant(&self);
        }
        self.0
    }

    /// Zero-based position of this version in the per-version tables.
    pub fn index(self) -> (r: usize)
        ensures
            r as int == self@ - 1,
            r < 40,
    {
        proof {
            use_type_invariant(&self);
        }
        (self.0 - 1) as usize
    }
}

/// The four data encoding modes of a QR symbol.
#[derive(Debug, Clone, Copy, PartialEq, Eq, Structural)]
pub enum Mode {
    Numeric,
    Alphanumeric,
    Byte,
    Kanji,
}

/// The mode with code `j` (0 numeric, 1 alphanumeric, 2 byte, 3 kanji).
pub open spec fn mode_of(j: int) -> Mode {
    if j == 0 {
        Mode::Numeric
    } else if j == 1 {
        Mode::Alphanumeric
    } else if j == 2 {
        Mode::Byte
    } else {
        Mode::Kanji
    }
}

impl Mode {
    /// The code of a mode: its position in the per-mode tables.
    pub open spec fn code(self) -> int {
        match self {
            Mode::Numeric => 0,
            Mode::Alphanumeric => 1,
            Mode::Byte => 2,
            Mode::Kanji => 3,
        }
    }

    /// The code of this mode: its position in the per-mode tables.
    pub fn mode_code(&self) -> (r: u8)
        ensures
            r as int == self.code(),
            r < 4,
            mode_of(r as int) == *self,
    {
        match self {
            Mode::Numeric => 0,
            Mode::Alphanumeric => 1,
            Mode::Byte => 2,
            Mode::Kanji => 3,
        }
    }
}

/// The four error-correction levels, from the least (L) to the most (H) redundant.
#[derive(Debug, Clone, Copy, PartialEq, Eq, Structural)]
pub enum ECCLevel {
    L,
    M,
    Q,
    H,
}

impl ECCLevel {
    /// The rank of a level: 0 for L up to 3 for H.
    pub open spec fn rank(self) -> int {
        match self {
            ECCLevel::L => 0,
            ECCLevel::M => 1,
            ECCLevel::Q => 2,
            ECCLevel::H => 3,
        }
    }

    /// Raises the level by `offset` steps, stopping at H.
    pub fn raise(&mut self, offset: u8)
        ensures
            final(self).rank() == if old(self).rank() + offset > 3 {
                3
            } else {
                old(self).rank() + offset
            },
    {
        if offset > 3 || (self.level_code() + offset > 3) {
            *self = ECCLevel::H;
        } else {
            let mut level = *self;
            let mut step: u8 = 0;
            while step < offset
                invariant
                    step <= offset,
                    old(self).rank() + offset <= 3,
                    level.rank() == old(self).rank() + step,
                decreases offset - step,
            {
                level = level.next();
                step = step + 1;
            }
            *self = level;
        }
    }

    /// The rank of this level: 0 for L up to 3 for H.
    pub fn level_code(&self) -> (r: u8)
        ensures
            r as int == self.rank(),
    {
        match self {
            ECCLevel::L => 0,
            ECCLevel::M => 1,
            ECCLevel::Q => 2,
            ECCLevel::H => 3,
        }
    }

    /// The next level up, or H again from H.
    fn next(&self) -> (r: ECCLevel)
        ensures
            r.rank() == if self.rank() == 3 {
                3
            } else {
                self.rank() + 1
            },
    {
        match self {
            ECCLevel::L => ECCLevel::M,
            ECCLevel::M => ECCLevel::Q,
            ECCLevel::Q => ECCLevel::H,
            ECCLevel::H => ECCLevel::H,
        }
    }
}

} // verus!
