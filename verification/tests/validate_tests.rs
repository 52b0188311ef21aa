use rpprof::addr_validate::{advance, check_length, validate, Outcome, Pipes, Step};

/// A kernel in which a range of addresses can be read.
struct Kernel {
    readable: std::ops::Range<usize>,
    buffered: usize,
    opened: i32,
    interruptions: usize,
}

fn kernel(readable: std::ops::Range<usize>) -> Kernel {
    Kernel { readable, buffered: 0, opened: 0, interruptions: 0 }
}

impl Kernel {
    fn perform(&mut self, step: Step) -> Outcome {
        if self.interruptions > 0 && !matches!(step, Step::Reopen { .. }) {
            self.interruptions -= 1;
            return Outcome::Interrupted;
        }
        match step {
            Step::Read { len, .. } => {
                if self.buffered == 0 {
                    return Outcome::WouldBlock;
                }
                let n = self.buffered.min(len);
                self.buffered -= n;
                Outcome::Bytes(n)
            }
            Step::Reopen { .. } => {
                self.opened += 1;
                self.buffered = 0;
                Outcome::Opened { read_fd: 10 * self.opened, write_fd: 10 * self.opened + 1 }
            }
            Step::Write { addr, len, .. } => {
                if self.readable.contains(&addr) && self.readable.contains(&(addr + len - 1)) {
                    self.buffered += len;
                    Outcome::Bytes(len)
                } else {
                    Outcome::Failed
                }
            }
            Step::Answer(_) => unreachable!(),
        }
    }

    fn validate(&mut self, pipes: &mut Pipes, addr: usize) -> bool {
        let mut step = validate(addr, pipes);
        loop {
            if let Step::Answer(answer) = step {
                return answer;
            }
            let outcome = self.perform(step);
            step = advance(addr, pipes, step, outcome);
        }
    }
}

#[test]
fn validate_stack() {
    let i = 0;
    let addr = std::ptr::from_ref(&i) as usize;
    let mut pipes = Pipes::new();
    assert!(kernel(addr..addr + 16).validate(&mut pipes, addr));
}

#[test]
fn validate_heap() {
    let vec: Vec<i32> = vec![0; 1000];
    let start = vec.as_ptr() as usize;
    let mut pipes = Pipes::new();
    let mut kernel = kernel(start..start + 4 * 1000 + 16);

    for i in vec.iter() {
        assert!(kernel.validate(&mut pipes, std::ptr::from_ref(i) as usize));
    }
    assert_eq!(kernel.opened, 1);
}

#[test]
fn failed_validate() {
    let mut pipes = Pipes::new();
    let mut kernel = kernel(0x1000..0x2000);
    assert!(!kernel.validate(&mut pipes, 0));
    assert_eq!(kernel.opened, 0);
    assert!(!kernel.validate(&mut pipes, -1_i32 as usize));
}

#[test]
fn interrupted_calls_are_made_again() {
    let mut pipes = Pipes::new();
    let mut kernel = kernel(0x1000..0x2000);
    for interruptions in [0, 1, 5] {
        kernel.interruptions = interruptions;
        assert!(kernel.validate(&mut pipes, 0x1100));
        kernel.interruptions = interruptions;
        assert!(!kernel.validate(&mut pipes, 0x3000));
    }
}

#[test]
fn a_broken_pipe_is_opened_again() {
    let len = check_length();
    assert_eq!(len, 2 * std::mem::size_of::<usize>());
    let mut pipes = Pipes { read_fd: 3, write_fd: 4 };
    let first = validate(0x1000, &pipes);
    assert_eq!(first, Step::Read { fd: 3, len });
    for outcome in [Outcome::Bytes(0), Outcome::Failed] {
        assert_eq!(
            advance(0x1000, &mut pipes, first, outcome),
            Step::Reopen { read_fd: 3, write_fd: 4 }
        );
        assert_eq!(pipes, Pipes { read_fd: 3, write_fd: 4 });
    }
    let write = advance(0x1000, &mut pipes, first, Outcome::WouldBlock);
    assert_eq!(write, Step::Write { fd: 4, addr: 0x1000, len });

    let reopen = Step::Reopen { read_fd: 3, write_fd: 4 };
    assert_eq!(advance(0x1000, &mut pipes, reopen, Outcome::Failed), Step::Answer(false));
    assert_eq!(pipes, Pipes { read_fd: 3, write_fd: 4 });
    let opened = Outcome::Opened { read_fd: 8, write_fd: 9 };
    assert_eq!(
        advance(0x1000, &mut pipes, reopen, opened),
        Step::Write { fd: 9, addr: 0x1000, len }
    );
    assert_eq!(pipes, Pipes { read_fd: 8, write_fd: 9 });
}

#[test]
fn only_written_bytes_pass() {
    let mut pipes = Pipes { read_fd: 3, write_fd: 4 };
    let write = Step::Write { fd: 4, addr: 0x1000, len: check_length() };
    assert_eq!(advance(0x1000, &mut pipes, write, Outcome::Bytes(1)), Step::Answer(true));
    assert_eq!(advance(0x1000, &mut pipes, write, Outcome::Bytes(0)), Step::Answer(false));
    assert_eq!(advance(0x1000, &mut pipes, write, Outcome::WouldBlock), Step::Answer(false));
    assert_eq!(advance(0x1000, &mut pipes, write, Outcome::Failed), Step::Answer(false));
    assert_eq!(advance(0x1000, &mut pipes, write, Outcome::Interrupted), write);
    let answer = Step::Answer(true);
    assert_eq!(advance(0x1000, &mut pipes, answer, Outcome::Failed), answer);
}
