# notetaker

A local meeting notetaker. It captures a call with the microphone on one channel and the other
side on the other, or imports recordings from a plugged-in recorder; turns speech into text, live
and once more when the call is over; tells the voices apart, finds the user's own, and lets the
user name the others; and summarises the meeting with a local language model.

## Layout

- `src/` is the library: the rules of all this, written in Verus. Every function states what it
  returns, and Verus proves it. What the rules come to is stated by the public proof functions
  whose names begin with `law_`.
- `app/` is the program around it: files, sound devices, processes, the database, the network and
  the window, and what calculates with floating-point numbers.
- `tests/` runs the library on concrete values.

| Module | What it decides |
|---|---|
| `audio_capture`, `monitor` | which devices are opened, how channels are interleaved, when levels are shown |
| `live`, `transcribe` | which pieces of a transcript are kept, which of a live window are new, and what a failure or a stop does |
| `diarize`, `grouping` | from which samples embeddings are taken, and how they are stored |
| `speakers` | whom a voice is suggested to be, and what a decision about it changes |
| `pipeline` | what is stored of a finished recording and when, and in which stages it is worked on |
| `summarize` | how a transcript is cut into chunks, what the language model is asked, and how its replies are stored |
| `ingest`, `hash` | when a copy is good, and which files may be deleted from a device |
| `device_watcher`, `call_detector`, `proc_loopback` | which drives are new and what audio is on them, which programs are running |
| `hardware`, `models`, `json`, `commands` | which models suit the machine, and what the settings say |
| `store`, `db` | the statements for the database, and what they make of its tables |
| `paths`, `text`, `digits`, `order`, `time` | what the others are built on |

## Times, samples and embeddings

Times are whole nanoseconds. A sample or a number of an embedding is only carried through the
library, as a value of any type or as a bit pattern; calculating with it is left to `app/`.

## The database

The library returns statements, and `app/` executes them. `store` also gives the tables as
mathematical maps, and each statement as a change of them, so that laws can say what a list of
statements makes of the tables.

## What is taken for granted

What the library calls of the standard library, of `serde_json` and of `sha2` beyond what Verus
knows is declared next to where it is used, each with a comment that says what is claimed of it:
see `text`, `paths`, `hash`, `json`, `hardware` and `device_watcher`.
