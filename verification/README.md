# desktop-task-queue

A to-do widget for the desktop.  A small handle at the right edge of the screen shows how
many tasks are left; a click opens the board to its left, where tasks are added with Enter,
dragged into order and finished with a click.  What is finished fades, goes, and is noted
in a record.

The decisions are a library verified with Verus (`src/`); drawing, files and calls to
Windows are an ordinary program around it (`app/`).

| module     | what it holds |
|------------|---------------|
| `rounding` | the single-precision format as whole numbers: values, and the nearest value |
| `coord`    | window coordinates: sums, differences, products, order, rounding |
| `model`    | the queue as a mathematical object, and what each event does to it |
| `queue`    | the queue itself |
| `geometry` | where the window goes, in what order, and how big things in it are |
| `storage`  | what is kept on disk, and the steps of reading and saving |
| `json`     | the text of a record of a finished task |
| `text`     | trimming, decimal digits, UTF-16 |
| `win`      | what is asked of Windows, and what its answers mean |
| `fonts`    | which fallback font to try next, and where it stands |
| `paint`    | colours that depend on the state of what is drawn |
| `laws`     | what holds of the whole, with proofs |

Four facts about outside code are taken without proof: what `str::trim` and
`String::push` do (`text`), what text `serde_json` gives an object of two strings
(`json`), and what colour `egui` makes of a colour and an opacity (`paint`).  The tests hold the coordinates against the machine's own arithmetic, and
trimming against every character there is.
