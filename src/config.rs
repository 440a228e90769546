use vstd::prelude::*;

use crate::moves::Location;

verus! {

/// The keys that name the places of the board while playing.
#[derive(Clone, Copy, Debug, PartialEq, Eq, Structural)]
pub struct KeyConfig {
    /// The key for the first cell.
    pub cell1: char,
    /// The key for the second cell.
    pub cell2: char,
    /// The key for the third cell.
    pub cell3: char,
    /// The key for the fourth cell.
    pub cell4: char,
    /// The first key for the foundations.
    pub foundation1: char,
    /// The second key for the foundations.
    pub foundation2: char,
    /// The third key for the foundations.
    pub foundation3: char,
    /// The fourth key for the foundations.
    pub foundation4: char,
    /// The key for the first column.
    pub column1: char,
    /// The key for the second column.
    pub column2: char,
    /// The key for the third column.
    pub column3: char,
    /// The key for the fourth column.
    pub column4: char,
    /// The key for the fifth column.
    pub column5: char,
    /// The key for the sixth column.
    pub column6: char,
    /// The key for the seventh column.
    pub column7: char,
    /// The key for the eighth column.
    pub column8: char,
}

impl KeyConfig {
    /// The place that key `c` names, checking cells, then foundations, then
    /// columns, in order; `None` when it names none.
    pub open spec fn spec_location_for(self, c: char) -> Option<Location> {
        if c == self.cell1 {
            Some(Location::Cell { i: 0 })
        } else if c == self.cell2 {
            Some(Location::Cell { i: 1 })
        } else if c == self.cell3 {
            Some(Location::Cell { i: 2 })
        } else if c == self.cell4 {
            Some(Location::Cell { i: 3 })
        } else if c == self.foundation1 || c == self.foundation2 || c == self.foundation3 || c
            == self.foundation4 {
            Some(Location::Foundation)
        } else if c == self.column1 {
            Some(Location::Column { i: 0 })
        } else if c == self.column2 {
            Some(Location::Column { i: 1 })
        } else if c == self.column3 {
            Some(Location::Column { i: 2 })
        } else if c == self.column4 {
            Some(Location::Column { i: 3 })
        } else if c == self.column5 {
            Some(Location::Column { i: 4 })
        } else if c == self.column6 {
            Some(Location::Column { i: 5 })
        } else if c == self.column7 {
            Some(Location::Column { i: 6 })
        } else if c == self.column8 {
            Some(Location::Column { i: 7 })
        } else {
            None
        }
    }

    /// The keys used when no configuration is stored: `qwer` for the cells,
    /// `uiop` for the foundations, `asdfjkl;` for the columns.
    pub fn default_keys() -> (r: KeyConfig)
        ensures
            r == (KeyConfig {
                cell1: 'q',
                cell2: 'w',
                cell3: 'e',
                cell4: 'r',
                foundation1: 'u',
                foundation2: 'i',
                foundation3: 'o',
                foundation4: 'p',
                column1: 'a',
                column2: 's',
                column3: 'd',
                column4: 'f',
                column5: 'j',
                column6: 'k',
                column7: 'l',
                column8: ';',
            }),
    {
        KeyConfig {
            cell1: 'q',
            cell2: 'w',
            cell3: 'e',
            cell4: 'r',
            foundation1: 'u',
            foundation2: 'i',
            foundation3: 'o',
            foundation4: 'p',
            column1: 'a',
            column2: 's',
            column3: 'd',
            column4: 'f',
            column5: 'j',
            column6: 'k',
            column7: 'l',
            column8: ';',
        }
    }

    /// Returns the place that key `c` names, if any.
    pub fn location_for(&self, c: char) -> (r: Option<Location>)
        ensures
            r == self.spec_location_for(c),
    {
        if c == self.cell1 {
            Some(Location::Cell { i: 0 })
        } else if c == self.cell2 {
            Some(Location::Cell { i: 1 })
        } else if c == self.cell3 {
            Some(Location::Cell { i: 2 })
        } else if c == self.cell4 {
            Some(Location::Cell { i: 3 })
        } else if c == self.foundation1 || c == self.foundation2 || c == self.foundation3 || c
            == self.foundation4 {
            Some(Location::Foundation)
        } else if c == self.column1 {
            Some(Location::Column { i: 0 })
        } else if c == self.column2 {
            Some(Location::Column { i: 1 })
        } else if c == self.column3 {
            Some(Location::Column { i: 2 })
        } else if c == self.column4 {
            Some(Location::Column { i: 3 })
        } else if c == self.column5 {
            Some(Location::Column { i: 4 })
        } else if c == self.column6 {
            Some(Location::Column { i: 5 })
        } else if c == self.column7 {
            Some(Location::Column { i: 6 })
        } else if c == self.column8 {
            Some(Location::Column { i: 7 })
        } else {
            None
        }
    }
}

} // verus!
