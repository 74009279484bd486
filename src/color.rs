use vstd::prelude::*;
use vstd::string::{StringExecFns, StringSliceAdditionalSpecFns};

verus! {

/// The terminal escape sequence that the style letter `c` selects: a foreground colour
/// (`d r g y b m c w`, and `D R G Y B M C W` for the bright ones) or bold (`+`); empty for
/// any other byte.
pub open spec fn style_code(c: u8) -> Seq<char> {
    if c == 100 {
        seq!['\x1b', '[', '3', '0', 'm']
    } else if c == 114 {
        seq!['\x1b', '[', '3', '1', 'm']
    } else if c == 103 {
        seq!['\x1b', '[', '3', '2', 'm']
    } else if c == 121 {
        seq!['\x1b', '[', '3', '3', 'm']
    } else if c == 98 {
        seq!['\x1b', '[', '3', '4', 'm']
    } else if c == 109 {
        seq!['\x1b', '[', '3', '5', 'm']
    } else if c == 99 {
        seq!['\x1b', '[', '3', '6', 'm']
    } else if c == 119 {
        seq!['\x1b', '[', '3', '7', 'm']
    } else if c == 68 {
        seq!['\x1b', '[', '9', '0', 'm']
    } else if c == 82 {
        seq!['\x1b', '[', '9', '1', 'm']
    } else if c == 71 {
        seq!['\x1b', '[', '9', '2', 'm']
    } else if c == 89 {
        seq!['\x1b', '[', '9', '3', 'm']
    } else if c == 66 {
        seq!['\x1b', '[', '9', '4', 'm']
    } else if c == 77 {
        seq!['\x1b', '[', '9', '5', 'm']
    } else if c == 67 {
        seq!['\x1b', '[', '9', '6', 'm']
    } else if c == 87 {
        seq!['\x1b', '[', '9', '7', 'm']
    } else if c == 43 {
        seq!['\x1b', '[', '1', 'm']
    } else {
        Seq::empty()
    }
}

/// The escape sequences of all the style letters of `style`, in order.
pub open spec fn style_codes(style: Seq<u8>) -> Seq<char>
    decreases style.len(),
{
    if style.len() == 0 {
        Seq::empty()
    } else {
        style_codes(style.drop_last()) + style_code(style.last())
    }
}

/// The escape sequence that ends every style.
pub open spec fn reset_code() -> Seq<char> {
    seq!['\x1b', '[', '0', 'm']
}

fn push_style_code(s: &mut String, c: u8)
    ensures
        final(s)@ == old(s)@ + style_code(c),
{
    match c {
        100 => {
            proof {
                reveal_strlit("\x1b[30m");
            }
            s.append("\x1b[30m");
        },
        114 => {
            proof {
                reveal_strlit("\x1b[31m");
            }
            s.append("\x1b[31m");
        },
        103 => {
            proof {
                reveal_strlit("\x1b[32m");
            }
            s.append("\x1b[32m");
        },
        121 => {
            proof {
                reveal_strlit("\x1b[33m");
            }
            s.append("\x1b[33m");
        },
        98 => {
            proof {
                reveal_strlit("\x1b[34m");
            }
            s.append("\x1b[34m");
        },
        109 => {
            proof {
                reveal_strlit("\x1b[35m");
            }
            s.append("\x1b[35m");
        },
        99 => {
            proof {
                reveal_strlit("\x1b[36m");
            }
            s.append("\x1b[36m");
        },
        119 => {
            proof {
                reveal_strlit("\x1b[37m");
            }
            s.append("\x1b[37m");
        },
        68 => {
            proof {
                reveal_strlit("\x1b[90m");
            }
            s.append("\x1b[90m");
        },
        82 => {
            proof {
                reveal_strlit("\x1b[91m");
            }
            s.append("\x1b[91m");
        },
        71 => {
            proof {
                reveal_strlit("\x1b[92m");
            }
            s.append("\x1b[92m");
        },
        89 => {
            proof {
                reveal_strlit("\x1b[93m");
            }
            s.append("\x1b[93m");
        },
        66 => {
            proof {
                reveal_strlit("\x1b[94m");
            }
            s.append("\x1b[94m");
        },
        77 => {
            proof {
                reveal_strlit("\x1b[95m");
            }
            s.append("\x1b[95m");
        },
        67 => {
            proof {
                reveal_strlit("\x1b[96m");
            }
            s.append("\x1b[96m");
        },
        87 => {
            proof {
                reveal_strlit("\x1b[97m");
            }
            s.append("\x1b[97m");
        },
        43 => {
            proof {
                reveal_strlit("\x1b[1m");
            }
            s.append("\x1b[1m");
        },
        _ => {
            assert(style_code(c) =~= Seq::<char>::empty());
            assert(old(s)@ + style_code(c) =~= old(s)@);
        },
    }
}

/// `text` wrapped in the terminal styles that the letters of `style` name.
pub fn color(text: &str, style: &str) -> (r: String)
    ensures
        r@ == style_codes(style.spec_bytes()) + text@ + reset_code(),
{
    let bytes = style.as_bytes();
    let mut s = String::new();
    let mut i: usize = 0;
    while i < bytes.len()
        invariant
            i <= bytes@.len(),
            bytes@ == style.spec_bytes(),
            s@ == style_codes(bytes@.subrange(0, i as int)),
        decreases bytes@.len() - i,
    {
        push_style_code(&mut s, bytes[i]);
        assert(bytes@.subrange(0, i + 1).drop_last() =~= bytes@.subrange(0, i as int));
        i = i + 1;
    }
    assert(bytes@.subrange(0, i as int) =~= bytes@);
    s.append(text);
    proof {
        reveal_strlit("\x1b[0m");
    }
    s.append("\x1b[0m");
    s
}

} // verus!
